//! Traps from user space: what the kernel does for each cause.

use vstd::prelude::*;
use std::collections::BTreeMap;
use crate::task::pcb::ProcessControlBlock;
use crate::task::processor::Processor;
use crate::task::manager::task_exists;
use crate::task::tcb::TaskRef;
use crate::task::{exit_current_and_run_next, exit_effect, exit_ok, ExitOutcome, IDLE_PID};
use crate::task::signal::{SignalFlags, SIGILL, SIGSEGV};
use crate::mm::address::{PhysMem, PAGE_SIZE};
use vstd::bytes::{spec_u64_to_le_bytes, u64_to_le_bytes};

verus! {

/// Why a user thread trapped into the kernel
#[derive(Clone, Copy, Debug, PartialEq, Eq, Structural)]
pub enum TrapCause {
    /// An environment call: a system call
    UserEnvCall,
    StoreFault,
    StorePageFault,
    InstructionFault,
    InstructionPageFault,
    LoadFault,
    LoadPageFault,
    IllegalInstruction,
    /// The supervisor timer fired
    SupervisorTimer,
    /// Any other exception or interrupt
    Other,
}

/// What the kernel does about a trap from user space
#[derive(Clone, Copy, Debug, PartialEq, Eq, Structural)]
pub enum TrapAction {
    /// Step past the call (see [`step_past_call`]), run the system call that
    /// the trap context names, and put its result in the context (see
    /// [`set_syscall_result`])
    Syscall,
    /// Record the signal with these bits for the running thread's process
    Signal(u32),
    /// Set the next timer interrupt, wake the sleepers whose time has come
    /// and give the processor to the next ready thread
    Tick,
    /// A trap the kernel does not handle: stop with an error
    Unsupported,
}

/// The action for a trap with cause `cause`.
pub open spec fn trap_action_spec(cause: TrapCause) -> TrapAction {
    match cause {
        TrapCause::UserEnvCall => TrapAction::Syscall,
        TrapCause::StoreFault | TrapCause::StorePageFault | TrapCause::InstructionFault
        | TrapCause::InstructionPageFault | TrapCause::LoadFault | TrapCause::LoadPageFault => TrapAction::Signal(
            SIGSEGV,
        ),
        TrapCause::IllegalInstruction => TrapAction::Signal(SIGILL),
        TrapCause::SupervisorTimer => TrapAction::Tick,
        TrapCause::Other => TrapAction::Unsupported,
    }
}

/// What each trap is answered with: every access or page fault (store,
/// instruction or load, of the access itself or of its page) with the
/// segmentation fault signal (bit 2048), an illegal instruction with the
/// illegal instruction signal (bit 16), an environment call with a system
/// call and the timer with a scheduling tick; only a trap of another cause
/// goes unhandled.
pub proof fn lemma_trap_actions(cause: TrapCause)
    ensures
        (cause == TrapCause::StoreFault || cause == TrapCause::StorePageFault || cause == TrapCause::InstructionFault
            || cause == TrapCause::InstructionPageFault || cause == TrapCause::LoadFault
            || cause == TrapCause::LoadPageFault) ==> trap_action_spec(cause) == TrapAction::Signal(2048u32),
        cause == TrapCause::IllegalInstruction ==> trap_action_spec(cause) == TrapAction::Signal(16u32),
        cause == TrapCause::UserEnvCall ==> trap_action_spec(cause) == TrapAction::Syscall,
        cause == TrapCause::SupervisorTimer ==> trap_action_spec(cause) == TrapAction::Tick,
        trap_action_spec(cause) == TrapAction::Unsupported <==> cause == TrapCause::Other,
{
}

/// The action for a trap with cause `cause`: a system call for an
/// environment call, a segmentation fault signal for an access or page
/// fault, an illegal instruction signal for an illegal instruction, a
/// scheduling tick for the timer; any other trap is not handled
pub fn trap_action(cause: TrapCause) -> (a: TrapAction)
    ensures
        a == trap_action_spec(cause),
{
    match cause {
        TrapCause::UserEnvCall => TrapAction::Syscall,
        TrapCause::StoreFault | TrapCause::StorePageFault | TrapCause::InstructionFault
        | TrapCause::InstructionPageFault | TrapCause::LoadFault | TrapCause::LoadPageFault => TrapAction::Signal(
            SIGSEGV,
        ),
        TrapCause::IllegalInstruction => TrapAction::Signal(SIGILL),
        TrapCause::SupervisorTimer => TrapAction::Tick,
        TrapCause::Other => TrapAction::Unsupported,
    }
}

/// Handle a trap of the running thread with cause `cause`, whose trap
/// context lies in physical page `trap_cx_ppn`: for an environment call the
/// thread is stepped past the call (see [`step_past_call`]); a fault is
/// recorded as a signal of its process (see
/// [`crate::task::add_signal_to_current`]). The action is returned for the
/// caller to carry out: run the system call, or the scheduling tick; the
/// trap is then finished by [`finish_trap`], which puts the call's result in
/// the context and ends the thread on a pending error signal
pub fn user_handler(
    cause: TrapCause,
    processor: &Processor,
    processes: &mut BTreeMap<usize, ProcessControlBlock>,
    mem: &mut PhysMem,
    trap_cx_ppn: usize,
) -> (a: TrapAction)
    requires
        processor.running() is Some,
        old(processes)@.contains_key(processor.running()->0.pid),
        cause == TrapCause::UserEnvCall ==> {
            &&& old(mem).wf()
            &&& old(mem).has(trap_cx_ppn as int)
            &&& cx_word(old(mem).page(trap_cx_ppn as int), CX_SEPC as int) + 4 <= u64::MAX
        },
    ensures
        a == trap_action_spec(cause),
        cause == TrapCause::UserEnvCall ==> {
            &&& final(mem).wf()
            &&& cx_word(final(mem).page(trap_cx_ppn as int), CX_SEPC as int)
                == cx_word(old(mem).page(trap_cx_ppn as int), CX_SEPC as int) + 4
            &&& forall|w: int| 0 <= w < CX_WORDS && w != CX_SEPC ==> #[trigger] cx_word(final(mem).page(trap_cx_ppn as int), w)
                == cx_word(old(mem).page(trap_cx_ppn as int), w)
            &&& forall|p: int| p != trap_cx_ppn && final(mem).has(p) ==> #[trigger] final(mem).page(p) == old(mem).page(p)
        },
        cause != TrapCause::UserEnvCall ==> *final(mem) == *old(mem),
        a matches TrapAction::Signal(bits) ==> {
            let pid = processor.running()->0.pid;
            &&& final(processes)@.dom() == old(processes)@.dom()
            &&& final(processes)@[pid].inner.signals.value() == old(processes)@[pid].inner.signals.value() | bits
            &&& forall|p: usize| p != pid && #[trigger] old(processes)@.contains_key(p)
                ==> final(processes)@[p] == old(processes)@[p]
        },
        !(a is Signal) ==> final(processes)@ == old(processes)@,
{
    let a = trap_action(cause);
    if cause == TrapCause::UserEnvCall {
        step_past_call(mem, trap_cx_ppn);
    }
    match a {
        TrapAction::Signal(bits) => {
            assert(SIGSEGV & !(4u32 | 16u32 | 64u32 | 256u32 | 2048u32) == 0 && SIGILL & !(4u32 | 16u32 | 64u32 | 256u32
                | 2048u32) == 0) by (bit_vector);
            let signal = SignalFlags::from_bits(bits).unwrap();
            crate::task::add_signal_to_current(processor, processes, signal);
        },
        _ => {},
    }
    a
}

/// Finish a trap of the running thread, whose trap context lies in physical
/// page `trap_cx_ppn`, once its action was carried out: the result of the
/// system call it made, if `result` holds one, is put in its a0 (see
/// [`set_syscall_result`]); then, when its process has a pending error signal
/// (see [`SignalFlags::check_error`]), the thread exits with that signal's
/// code (see [`exit_current_and_run_next`], `daemon` adopting orphans) and the
/// outcome of the exit is returned. `None` when the thread goes back to user
/// space.
pub fn finish_trap(
    processor: &mut Processor,
    processes: &mut BTreeMap<usize, ProcessControlBlock>,
    mem: &mut PhysMem,
    trap_cx_ppn: usize,
    result: Option<isize>,
    daemon: usize,
) -> (r: Option<ExitOutcome>)
    requires
        old(processor).running() is Some,
        task_exists(old(processes)@, old(processor).running()->0),
        result is Some ==> old(mem).wf() && old(mem).has(trap_cx_ppn as int),
        ({
            let task = old(processor).running()->0;
            let tcb = old(processes)@[task.pid].inner.tasks@[task.tid as int]->0;
            old(processes)@[task.pid].inner.signals.check_error_spec() is Some ==> {
                &&& tcb.inner.res is Some
                &&& (tcb.inner.res->0.tid == 0 && task.pid != IDLE_PID) ==> exit_ok(old(processes)@, task.pid, daemon)
            }
        }),
    ensures
        result is None ==> *final(mem) == *old(mem),
        result matches Some(v) ==> {
            &&& final(mem).wf()
            &&& final(mem).npages() == old(mem).npages()
            &&& cx_word(final(mem).page(trap_cx_ppn as int), 10) == v as u64
            &&& forall|w: int| 0 <= w < CX_WORDS && w != 10 ==> #[trigger] cx_word(final(mem).page(trap_cx_ppn as int), w)
                == cx_word(old(mem).page(trap_cx_ppn as int), w)
            &&& forall|p: int| p != trap_cx_ppn && final(mem).has(p) ==> #[trigger] final(mem).page(p) == old(mem).page(p)
        },
        ({
            let task = old(processor).running()->0;
            let main = old(processes)@[task.pid].inner.tasks@[task.tid as int]->0.inner.res->0.tid == 0;
            match old(processes)@[task.pid].inner.signals.check_error_spec() {
                None => r is None && *final(processor) == *old(processor) && final(processes)@ == old(processes)@,
                Some((code, _)) => {
                    &&& r == Some(if main && task.pid == IDLE_PID { ExitOutcome::Shutdown(code != 0) } else { ExitOutcome::RunNext })
                    &&& final(processor).running() == None::<TaskRef>
                    &&& final(processes)@.dom() == old(processes)@.dom()
                    &&& exit_effect(old(processes)@, final(processes)@, task, code, daemon)
                },
            }
        }),
{
    match result {
        Some(v) => set_syscall_result(mem, trap_cx_ppn, v),
        None => {},
    }
    match crate::task::check_signals_error_of_current(processor, processes) {
        Some((code, _)) => Some(exit_current_and_run_next(processor, processes, code, daemon)),
        None => None,
    }
}

/// Registers saved in a trap context: the 32 general registers come first,
/// eight bytes each, least significant byte first.
pub const SAVED_REGS: usize = 32;

/// Word of the trap context holding `sstatus`, after the registers
pub const CX_SSTATUS: usize = 32;
/// Word of the trap context holding `sepc`, where the thread resumes
pub const CX_SEPC: usize = 33;
/// Word of the trap context holding the kernel's `satp`
pub const CX_KERNEL_SATP: usize = 34;
/// Word of the trap context holding the thread's kernel stack top
pub const CX_KERNEL_SP: usize = 35;
/// Word of the trap context holding the address of the trap handler
pub const CX_TRAP_HANDLER: usize = 36;
/// Words of a trap context
pub const CX_WORDS: usize = 37;

/// Word `w` of the trap context held by page `page`, little endian.
pub open spec fn cx_word(page: Seq<u8>, w: int) -> u64 {
    vstd::bytes::spec_u64_from_le_bytes(page.subrange(8 * w, 8 * w + 8))
}

/// Word `w` of the context a thread starts with: every register 0 but the
/// stack pointer (register 2), `sstatus`, `sepc` at `entry`, and the
/// kernel's `satp`, kernel stack top and trap handler.
pub open spec fn init_cx_word(w: int, entry: u64, sp: u64, sstatus: u64, kernel_satp: u64, kernel_sp: u64, handler: u64) -> u64 {
    if w == 2 {
        sp
    } else if w == CX_SSTATUS {
        sstatus
    } else if w == CX_SEPC {
        entry
    } else if w == CX_KERNEL_SATP {
        kernel_satp
    } else if w == CX_KERNEL_SP {
        kernel_sp
    } else if w == CX_TRAP_HANDLER {
        handler
    } else {
        0
    }
}

/// Set word `reg` of the trap context in physical page `ppn` to `value`:
/// a saved register, or one of the words after them
pub fn set_saved_reg(mem: &mut PhysMem, ppn: usize, reg: usize, value: u64)
    requires
        old(mem).wf(),
        old(mem).has(ppn as int),
        reg < CX_WORDS,
    ensures
        final(mem).wf(),
        final(mem).npages() == old(mem).npages(),
        forall|j: int| 0 <= j < 8 ==> #[trigger] final(mem).page(ppn as int)[8 * reg + j] == spec_u64_to_le_bytes(value)[j],
        forall|j: int| 0 <= j < PAGE_SIZE && !(8 * reg <= j < 8 * reg + 8)
            ==> #[trigger] final(mem).page(ppn as int)[j] == old(mem).page(ppn as int)[j],
        final(mem).page(ppn as int).len() == PAGE_SIZE,
        forall|p: int| p != ppn && final(mem).has(p) ==> #[trigger] final(mem).page(p) == old(mem).page(p),
{
    let bytes = u64_to_le_bytes(value);
    proof {
        old(mem).lemma_page_len(ppn as int);
    }
    let mut j: usize = 0;
    while j < 8
        invariant
            bytes@ == spec_u64_to_le_bytes(value),
            bytes@.len() == 8,
            reg < CX_WORDS,
            j <= 8,
            mem.wf(),
            old(mem).wf(),
            mem.has(ppn as int),
            mem.npages() == old(mem).npages(),
            mem.page(ppn as int).len() == PAGE_SIZE,
            forall|k: int| 0 <= k < j ==> #[trigger] mem.page(ppn as int)[8 * reg + k] == spec_u64_to_le_bytes(value)[k],
            forall|k: int| 0 <= k < PAGE_SIZE && !(8 * reg <= k < 8 * reg + j)
                ==> #[trigger] mem.page(ppn as int)[k] == old(mem).page(ppn as int)[k],
            forall|p: int| p != ppn && mem.has(p) ==> #[trigger] mem.page(p) == old(mem).page(p),
        decreases 8 - j,
    {
        mem.write_byte(ppn, 8 * reg + j, bytes[j]);
        j = j + 1;
    }
}

/// Word `w` of the trap context in page `ppn` reads as `value` after a
/// write of it.
pub proof fn lemma_cx_word_written(page: Seq<u8>, w: int, value: u64)
    requires
        0 <= w < CX_WORDS,
        page.len() == PAGE_SIZE,
        forall|j: int| 0 <= j < 8 ==> #[trigger] page[8 * w + j] == spec_u64_to_le_bytes(value)[j],
    ensures
        cx_word(page, w) == value,
{
    vstd::bytes::lemma_auto_spec_u64_to_from_le_bytes();
    let b = spec_u64_to_le_bytes(value);
    assert(b.len() == 8);
    let s = page.subrange(8 * w, 8 * w + 8);
    assert forall|j: int| 0 <= j < 8 implies s[j] == b[j] by {
        assert(page[8 * w + j] == b[j]);
    }
    assert(s =~= b);
}

/// Word `v` of a trap context is kept when only bytes of other words change.
pub proof fn lemma_cx_word_kept(before: Seq<u8>, after: Seq<u8>, v: int, w: int)
    requires
        0 <= v < CX_WORDS,
        0 <= w < CX_WORDS,
        v != w,
        before.len() == PAGE_SIZE,
        after.len() == PAGE_SIZE,
        forall|j: int| 0 <= j < PAGE_SIZE && !(8 * w <= j < 8 * w + 8) ==> #[trigger] after[j] == before[j],
    ensures
        cx_word(after, v) == cx_word(before, v),
{
    let a = after.subrange(8 * v, 8 * v + 8);
    let b = before.subrange(8 * v, 8 * v + 8);
    assert forall|j: int| 0 <= j < 8 implies a[j] == b[j] by {
        assert(after[8 * v + j] == before[8 * v + j]);
    }
    assert(a =~= b);
}

/// Fill the trap context in physical page `ppn` with the context a thread
/// starts with (see [`init_cx_word`]); the rest of the page and the other
/// pages keep their bytes
pub fn app_init_context(
    mem: &mut PhysMem,
    ppn: usize,
    entry: u64,
    sp: u64,
    sstatus: u64,
    kernel_satp: u64,
    kernel_sp: u64,
    handler: u64,
)
    requires
        old(mem).wf(),
        old(mem).has(ppn as int),
    ensures
        final(mem).wf(),
        final(mem).npages() == old(mem).npages(),
        final(mem).page(ppn as int).len() == PAGE_SIZE,
        forall|w: int| 0 <= w < CX_WORDS ==> #[trigger] cx_word(final(mem).page(ppn as int), w)
            == init_cx_word(w, entry, sp, sstatus, kernel_satp, kernel_sp, handler),
        forall|j: int| 8 * CX_WORDS <= j < PAGE_SIZE ==> #[trigger] final(mem).page(ppn as int)[j] == old(mem).page(ppn as int)[j],
        forall|p: int| p != ppn && final(mem).has(p) ==> #[trigger] final(mem).page(p) == old(mem).page(p),
{
    proof {
        old(mem).lemma_page_len(ppn as int);
    }
    let mut w: usize = 0;
    while w < CX_WORDS
        invariant
            w <= CX_WORDS,
            mem.wf(),
            mem.has(ppn as int),
            mem.npages() == old(mem).npages(),
            mem.page(ppn as int).len() == PAGE_SIZE,
            forall|v: int| 0 <= v < w ==> #[trigger] cx_word(mem.page(ppn as int), v)
                == init_cx_word(v, entry, sp, sstatus, kernel_satp, kernel_sp, handler),
            forall|j: int| 8 * w <= j < PAGE_SIZE ==> #[trigger] mem.page(ppn as int)[j] == old(mem).page(ppn as int)[j],
            forall|p: int| p != ppn && mem.has(p) ==> #[trigger] mem.page(p) == old(mem).page(p),
        decreases CX_WORDS - w,
    {
        let value: u64 = if w == 2 {
            sp
        } else if w == CX_SSTATUS {
            sstatus
        } else if w == CX_SEPC {
            entry
        } else if w == CX_KERNEL_SATP {
            kernel_satp
        } else if w == CX_KERNEL_SP {
            kernel_sp
        } else if w == CX_TRAP_HANDLER {
            handler
        } else {
            0
        };
        let ghost before = mem.page(ppn as int);
        set_saved_reg(mem, ppn, w, value);
        proof {
            let after = mem.page(ppn as int);
            lemma_cx_word_written(after, w as int, value);
            assert forall|v: int| 0 <= v < w + 1 implies #[trigger] cx_word(mem.page(ppn as int), v)
                == init_cx_word(v, entry, sp, sstatus, kernel_satp, kernel_sp, handler) by {
                if v < w {
                    lemma_cx_word_kept(before, after, v, w as int);
                }
            }
        }
        w = w + 1;
    }
}

/// Read word `w` of the trap context in physical page `ppn`
pub fn read_cx_word(mem: &PhysMem, ppn: usize, w: usize) -> (v: u64)
    requires
        mem.wf(),
        mem.has(ppn as int),
        w < CX_WORDS,
    ensures
        v == cx_word(mem.page(ppn as int), w as int),
{
    proof {
        mem.lemma_page_len(ppn as int);
    }
    let mut bytes: Vec<u8> = Vec::new();
    let mut j: usize = 0;
    assert(bytes@ =~= mem.page(ppn as int).subrange(8 * w as int, 8 * w as int));
    while j < 8
        invariant
            j <= 8,
            w < CX_WORDS,
            mem.wf(),
            mem.has(ppn as int),
            mem.page(ppn as int).len() == PAGE_SIZE,
            bytes@ == mem.page(ppn as int).subrange(8 * w as int, 8 * w + j),
        decreases 8 - j,
    {
        bytes.push(mem.read_byte(ppn, 8 * w + j));
        j = j + 1;
        assert(bytes@ =~= mem.page(ppn as int).subrange(8 * w as int, 8 * w + j));
    }
    vstd::bytes::u64_from_le_bytes(bytes.as_slice())
}

/// Step the thread past the environment call that trapped: `sepc` in the
/// trap context in page `ppn` moves on by 4, the size of the instruction
pub fn step_past_call(mem: &mut PhysMem, ppn: usize)
    requires
        old(mem).wf(),
        old(mem).has(ppn as int),
        cx_word(old(mem).page(ppn as int), CX_SEPC as int) + 4 <= u64::MAX,
    ensures
        final(mem).wf(),
        final(mem).npages() == old(mem).npages(),
        cx_word(final(mem).page(ppn as int), CX_SEPC as int) == cx_word(old(mem).page(ppn as int), CX_SEPC as int) + 4,
        forall|w: int| 0 <= w < CX_WORDS && w != CX_SEPC ==> #[trigger] cx_word(final(mem).page(ppn as int), w)
            == cx_word(old(mem).page(ppn as int), w),
        forall|p: int| p != ppn && final(mem).has(p) ==> #[trigger] final(mem).page(p) == old(mem).page(p),
{
    proof {
        old(mem).lemma_page_len(ppn as int);
    }
    let sepc = read_cx_word(mem, ppn, CX_SEPC);
    set_saved_reg(mem, ppn, CX_SEPC, sepc + 4);
    proof {
        lemma_cx_word_written(mem.page(ppn as int), CX_SEPC as int, (sepc + 4) as u64);
        assert forall|w: int| 0 <= w < CX_WORDS && w != CX_SEPC implies #[trigger] cx_word(mem.page(ppn as int), w)
            == cx_word(old(mem).page(ppn as int), w) by {
            lemma_cx_word_kept(old(mem).page(ppn as int), mem.page(ppn as int), w, CX_SEPC as int);
        }
    }
}

/// Put the result of a system call in register a0 (register 10) of the
/// trap context in page `ppn`, where the thread finds it when it resumes
pub fn set_syscall_result(mem: &mut PhysMem, ppn: usize, result: isize)
    requires
        old(mem).wf(),
        old(mem).has(ppn as int),
    ensures
        final(mem).wf(),
        final(mem).npages() == old(mem).npages(),
        cx_word(final(mem).page(ppn as int), 10) == result as u64,
        forall|w: int| 0 <= w < CX_WORDS && w != 10 ==> #[trigger] cx_word(final(mem).page(ppn as int), w)
            == cx_word(old(mem).page(ppn as int), w),
        forall|p: int| p != ppn && final(mem).has(p) ==> #[trigger] final(mem).page(p) == old(mem).page(p),
{
    proof {
        old(mem).lemma_page_len(ppn as int);
    }
    set_saved_reg(mem, ppn, 10, result as u64);
    proof {
        lemma_cx_word_written(mem.page(ppn as int), 10, result as u64);
        assert forall|w: int| 0 <= w < CX_WORDS && w != 10 implies #[trigger] cx_word(mem.page(ppn as int), w)
            == cx_word(old(mem).page(ppn as int), w) by {
            lemma_cx_word_kept(old(mem).page(ppn as int), mem.page(ppn as int), w, 10);
        }
    }
}

/// Word `w` of the context a thread starts a new program with: that of
/// [`init_cx_word`], with the argument count in a0 (register 10) and the
/// address of the argument array in a1 (register 11).
pub open spec fn exec_cx_word(
    w: int,
    entry: u64,
    sp: u64,
    sstatus: u64,
    kernel_satp: u64,
    kernel_sp: u64,
    handler: u64,
    argc: u64,
    argv: u64,
) -> u64 {
    if w == 10 {
        argc
    } else if w == 11 {
        argv
    } else {
        init_cx_word(w, entry, sp, sstatus, kernel_satp, kernel_sp, handler)
    }
}

/// Fill the trap context in physical page `ppn` with the context a thread
/// starts a new program with (see [`exec_cx_word`]); the other pages keep
/// their bytes
pub fn exec_init_context(
    mem: &mut PhysMem,
    ppn: usize,
    entry: u64,
    sp: u64,
    sstatus: u64,
    kernel_satp: u64,
    kernel_sp: u64,
    handler: u64,
    argc: u64,
    argv: u64,
)
    requires
        old(mem).wf(),
        old(mem).has(ppn as int),
    ensures
        final(mem).wf(),
        final(mem).npages() == old(mem).npages(),
        forall|w: int| 0 <= w < CX_WORDS ==> #[trigger] cx_word(final(mem).page(ppn as int), w)
            == exec_cx_word(w, entry, sp, sstatus, kernel_satp, kernel_sp, handler, argc, argv),
        forall|p: int| p != ppn && final(mem).has(p) ==> #[trigger] final(mem).page(p) == old(mem).page(p),
{
    app_init_context(mem, ppn, entry, sp, sstatus, kernel_satp, kernel_sp, handler);
    let ghost m1 = *mem;
    set_saved_reg(mem, ppn, 10, argc);
    proof {
        lemma_cx_word_written(mem.page(ppn as int), 10, argc);
        assert forall|w: int| 0 <= w < CX_WORDS && w != 10 implies #[trigger] cx_word(mem.page(ppn as int), w)
            == cx_word(m1.page(ppn as int), w) by {
            lemma_cx_word_kept(m1.page(ppn as int), mem.page(ppn as int), w, 10);
        }
    }
    let ghost m2 = *mem;
    set_saved_reg(mem, ppn, 11, argv);
    proof {
        lemma_cx_word_written(mem.page(ppn as int), 11, argv);
        assert forall|w: int| 0 <= w < CX_WORDS && w != 11 implies #[trigger] cx_word(mem.page(ppn as int), w)
            == cx_word(m2.page(ppn as int), w) by {
            lemma_cx_word_kept(m2.page(ppn as int), mem.page(ppn as int), w, 11);
        }
        assert forall|w: int| 0 <= w < CX_WORDS implies #[trigger] cx_word(mem.page(ppn as int), w)
            == exec_cx_word(w, entry, sp, sstatus, kernel_satp, kernel_sp, handler, argc, argv) by {
            if w != 10 && w != 11 {
                assert(cx_word(m2.page(ppn as int), w) == cx_word(m1.page(ppn as int), w));
            }
        }
    }
}

} // verus!
