//! Process system calls.

use vstd::prelude::*;
use std::collections::BTreeMap;
use crate::task::manager::{task_exists, task_status, Manager};
use crate::mm::address::PhysMem;
use crate::mm::frame_allocator::StackFrameAllocator;
use crate::task::id::RecycleAllocator;
use crate::fs::{full_path, get_full_path};
use crate::mm::memory_set::MapType;
use crate::mm::{
    byte_at, injective_on, read_user_args, read_user_str, readable, shares_place, str_readable, user_args, user_str,
    write_user_bytes,
};
use crate::task::pcb::{fork_ok, ProcessControlBlock};
use crate::task::tcb::trap_cx_vpn;
use crate::trap::{cx_word, lemma_cx_word_kept, lemma_cx_word_written, set_saved_reg, CX_KERNEL_SP, CX_WORDS};
use vstd::bytes::{spec_u64_to_le_bytes, spec_u64_to_le_bytes_open, spec_u64_to_le_bytes_to_open};
use crate::task::processor::Processor;
use crate::task::signal::{known_signals, SignalFlags};
use crate::task::tcb::{Status, TaskRef};
use crate::task::{exec_program, exit_current_and_run_next, exit_effect, exit_ok, suspend_current_and_run_next, ExitOutcome, IDLE_PID};
use crate::timer::{get_time_ms, CLOCK_FREQ, MSEC_PER_SEC};
use crate::easy_fs::efs::EasyFileSystem;
use crate::easy_fs::vfs::{inode_of, walk, walk_ok};
use crate::fs::inode::bytes_from;
use crate::mm::address::PAGE_SIZE;
use crate::mm::elf::{elf_entry, elf_parses};
use crate::task::pcb::KernelEntry;
use crate::trap::exec_cx_word;
use vstd::string::{StrSliceExecFns, StringSliceAdditionalSpecFns};
use vstd::utf8::encode_utf8;

verus! {

broadcast use vstd::std_specs::btree::group_btree_axioms;

/// End the running thread with `exit_code`; see [`exit_current_and_run_next`]
pub fn sys_exit(
    processor: &mut Processor,
    processes: &mut BTreeMap<usize, ProcessControlBlock>,
    exit_code: i32,
    daemon: usize,
) -> (outcome: ExitOutcome)
    requires
        old(processor).running() is Some,
        task_exists(old(processes)@, old(processor).running()->0),
        ({
            let task = old(processor).running()->0;
            let tcb = old(processes)@[task.pid].inner.tasks@[task.tid as int]->0;
            &&& tcb.inner.res is Some
            &&& (tcb.inner.res->0.tid == 0 && task.pid != IDLE_PID) ==> exit_ok(old(processes)@, task.pid, daemon)
        }),
    ensures
        final(processor).running() == None::<TaskRef>,
        final(processes)@.dom() == old(processes)@.dom(),
        ({
            let task = old(processor).running()->0;
            let main = old(processes)@[task.pid].inner.tasks@[task.tid as int]->0.inner.res->0.tid == 0;
            &&& (main && task.pid == IDLE_PID) ==> outcome == ExitOutcome::Shutdown(exit_code != 0)
            &&& !(main && task.pid == IDLE_PID) ==> outcome == ExitOutcome::RunNext
        }),
        exit_effect(old(processes)@, final(processes)@, old(processor).running()->0, exit_code, daemon),
{
    exit_current_and_run_next(processor, processes, exit_code, daemon)
}

/// Give the processor to the next ready thread; 0
pub fn sys_yield(
    processor: &mut Processor,
    manager: &mut Manager,
    processes: &mut BTreeMap<usize, ProcessControlBlock>,
) -> (r: isize)
    requires
        old(processor).running() is Some,
        task_exists(old(processes)@, old(processor).running()->0),
    ensures
        r == 0,
        final(processor).running() == None::<TaskRef>,
        final(manager).queue() == old(manager).queue().push(old(processor).running()->0),
        task_status(final(processes)@, old(processor).running()->0) == Status::Ready,
        final(processes)@.dom() == old(processes)@.dom(),
{
    let _ = suspend_current_and_run_next(processor, manager, processes);
    0
}

/// The time in milliseconds when the timer reads `ticks`
pub fn sys_get_time(ticks: usize) -> (r: isize)
    ensures
        r == ticks / (CLOCK_FREQ / MSEC_PER_SEC),
{
    let ms = get_time_ms(ticks);
    assert(ms <= ticks) by (nonlinear_arith)
        requires
            ms == ticks / 10000,
    ;
    assert(usize::MAX == 0xffff_ffff || usize::MAX == 0xffff_ffff_ffff_ffff);
    assert(isize::MAX == 0x7fff_ffff || isize::MAX == 0x7fff_ffff_ffff_ffff);
    assert(ms <= usize::MAX / 10000) by (nonlinear_arith)
        requires
            ms == ticks / 10000,
            ticks <= usize::MAX,
    ;
    ms as isize
}

/// The pid of the running thread's process
pub fn sys_getpid(processor: &Processor) -> (r: isize)
    requires
        processor.running() is Some,
        processor.running()->0.pid <= isize::MAX,
    ensures
        r == processor.running()->0.pid,
{
    crate::task::processor::current_pcb(processor) as isize
}

/// Fork the running thread's process (see [`ProcessControlBlock::fork`]);
/// the child's pid, while the child's thread will see 0 as the result: its
/// saved `a0` register is cleared. The child's trap context is the
/// parent's but for that and its kernel stack top, `kernel_sp`
pub fn sys_fork(
    processor: &Processor,
    processes: &mut BTreeMap<usize, ProcessControlBlock>,
    pids: &mut RecycleAllocator,
    manager: &mut Manager,
    allocator: &mut StackFrameAllocator,
    mem: &mut PhysMem,
    kstack: usize,
    kernel_sp: usize,
    strampoline: usize,
) -> (r: isize)
    requires
        processor.running() is Some,
        fork_ok(old(processes)@, processor.running()->0.pid, *old(pids), *old(allocator), *old(mem), strampoline),
        old(pids).current() <= isize::MAX,
    ensures
        0 <= r,
        !old(processes)@.contains_key(r as usize),
        final(processes)@.dom() == old(processes)@.dom().insert(r as usize),
        final(processes)@[r as usize].inner.parent == Some(processor.running()->0.pid),
        final(processes)@[processor.running()->0.pid].inner.children@
            == old(processes)@[processor.running()->0.pid].inner.children@.push(r as usize),
        final(manager).queue() == old(manager).queue().push(TaskRef { pid: r as usize, tid: 0 }),
        final(pids).in_use(r as int),
        forall|p: usize| p != processor.running()->0.pid && #[trigger] old(processes)@.contains_key(p)
            ==> final(processes)@[p] == old(processes)@[p],
        ({
            let ppn = final(processes)@[r as usize].inner.tasks@[0]->0.inner.trap_cx_ppn.0;
            let parent_ppn = old(processes)@[processor.running()->0.pid].inner.memory_set.frames()[trap_cx_vpn(0) as usize];
            &&& forall|j: int| 0 <= j < 8 ==> #[trigger] final(mem).page(ppn as int)[8 * 10 + j] == 0u8
            &&& cx_word(final(mem).page(ppn as int), 10) == 0
            &&& cx_word(final(mem).page(ppn as int), CX_KERNEL_SP as int) == kernel_sp as u64
            &&& forall|w: int| 0 <= w < CX_WORDS && w != 10 && w != CX_KERNEL_SP ==> #[trigger] cx_word(
                final(mem).page(ppn as int),
                w,
            ) == cx_word(old(mem).page(parent_ppn as int), w)
        }),
        final(mem).wf(),
        final(allocator).wf(),
{
    let parent = crate::task::processor::current_pcb(processor);
    let child = ProcessControlBlock::fork(processes, parent, pids, manager, allocator, mem, kstack, strampoline);
    let ghost c = processes@[child];
    let ppn = processes.get(&child).unwrap().inner.task(0).inner.trap_cx_ppn.0;
    proof {
        let p = old(processes)@[parent];
        let areas = p.inner.memory_set.areas();
        let i = choose|i: int|
            0 <= i < areas.len() && #[trigger] areas[i].has_vpn(trap_cx_vpn(0)) && areas[i].map_type == MapType::Framed;
        let ms = c.inner.memory_set;
        let tv = trap_cx_vpn(0) as usize;
        assert(ms.areas()[i].mapped_in(ms.mappings(), ms.frames()));
        assert(ms.mappings().contains_key(tv));
        assert(ms.frames().contains_key(tv));
        assert(ppn == ms.frames()[tv]);
        allocator.lemma_bounds();
        assert(allocator.is_allocated(ppn as int));
        assert(mem.page(ppn as int) == old(mem).page(p.inner.memory_set.frames()[tv] as int));
        mem.lemma_page_len(ppn as int);
    }
    let ghost m1 = *mem;
    set_saved_reg(mem, ppn, CX_KERNEL_SP, kernel_sp as u64);
    let ghost m2 = *mem;
    proof {
        lemma_cx_word_written(m2.page(ppn as int), CX_KERNEL_SP as int, kernel_sp as u64);
    }
    set_saved_reg(mem, ppn, 10, 0);
    proof {
        assert(spec_u64_to_le_bytes(0) == spec_u64_to_le_bytes_open(0)) by {
            spec_u64_to_le_bytes_to_open(0);
        }
        assert((0u64 & 0xff) == 0 && ((0u64 >> 8u64) & 0xff) == 0 && ((0u64 >> 16u64) & 0xff) == 0 && ((0u64 >> 24u64)
            & 0xff) == 0 && ((0u64 >> 32u64) & 0xff) == 0 && ((0u64 >> 40u64) & 0xff) == 0 && ((0u64 >> 48u64) & 0xff)
            == 0 && ((0u64 >> 56u64) & 0xff) == 0) by (bit_vector);
        lemma_cx_word_written(mem.page(ppn as int), 10, 0);
        lemma_cx_word_kept(m2.page(ppn as int), mem.page(ppn as int), CX_KERNEL_SP as int, 10);
        assert forall|w: int| 0 <= w < CX_WORDS && w != 10 && w != CX_KERNEL_SP implies #[trigger] cx_word(
            mem.page(ppn as int),
            w,
        ) == cx_word(m1.page(ppn as int), w) by {
            lemma_cx_word_kept(m2.page(ppn as int), mem.page(ppn as int), w, 10);
            lemma_cx_word_kept(m1.page(ppn as int), m2.page(ppn as int), w, CX_KERNEL_SP as int);
        }
    }
    child as isize
}

/// The request of an `exec` call from the running thread: the full path
/// (see [`get_full_path`]) of the program named by the string at user
/// address `path`, seen from the process's working directory, and the
/// arguments that the array at user address `args` names (see
/// [`read_user_args`]); `None` when they cannot be read. The request is
/// then carried out by [`crate::task::exec_program`], whose result, the
/// number of arguments or -1 when there is no such program, the call returns
pub fn sys_exec(
    processor: &Processor,
    processes: &BTreeMap<usize, ProcessControlBlock>,
    mem: &PhysMem,
    path: usize,
    args: usize,
) -> (r: Option<(String, Vec<String>)>)
    requires
        processor.running() is Some,
        processes@.contains_key(processor.running()->0.pid),
        mem.wf(),
    ensures
        ({
            let p = processes@[processor.running()->0.pid].inner;
            let pt = p.memory_set.pt();
            &&& r is Some <==> str_readable(pt, *mem, path as int) && user_args(pt, *mem, args as int) is Some
            &&& r matches Some((full, a)) ==> {
                &&& full@ == full_path(p.cwd@, user_str(pt, *mem, path as int))
                &&& user_args(pt, *mem, args as int) == Some(a@.map_values(|s: String| s@))
            }
        }),
{
    let pid = crate::task::processor::current_pcb(processor);
    let process = processes.get(&pid).unwrap();
    let pt = process.inner.memory_set.page_table();
    let name = match read_user_str(pt, mem, path) {
        Some(s) => s,
        None => return None,
    };
    let full = get_full_path(process.inner.cwd.as_str(), name.as_str());
    let argv = match read_user_args(pt, mem, args) {
        Some(a) => a,
        None => return None,
    };
    Some((full, argv))
}

/// Carry out an `exec` call of the running thread: the request is read from
/// user memory (see [`sys_exec`]), each argument taken as the UTF-8 bytes of
/// its string, and the program at the full path it names is run in the
/// thread's process (see [`exec_program`]). Returns the number of arguments;
/// -1, with every process kept, when there is no such program or it cannot
/// be run
#[verifier::rlimit(30)]
pub fn run_exec(
    processor: &Processor,
    processes: &mut BTreeMap<usize, ProcessControlBlock>,
    fs: &mut EasyFileSystem,
    path: usize,
    args: usize,
    kernel: KernelEntry,
    strampoline: usize,
    allocator: &mut StackFrameAllocator,
    mem: &mut PhysMem,
) -> (r: isize)
    requires
        processor.running() is Some,
        old(processes)@.contains_key(processor.running()->0.pid),
        old(mem).wf(),
        ({
            let pid = processor.running()->0.pid;
            let p = old(processes)@[pid].inner;
            let pt = p.memory_set.pt();
            let disk = old(fs).block_device.view();
            let area = old(fs).inode_area_start_block as int;
            let full = encode_utf8(full_path(p.cwd@, user_str(pt, *old(mem), path as int)));
            &&& str_readable(pt, *old(mem), path as int)
            &&& user_args(pt, *old(mem), args as int) is Some
            &&& old(fs).block_device.wf()
            &&& walk_ok(disk, area, inode_of(area, 0), full)
            &&& walk(disk, area, inode_of(area, 0), full) matches Some(n)
                ==> n.valid(disk) && n.disk_inode(disk).readable(disk)
            &&& p.tasks@.len() == 1
            &&& p.tasks@[0] is Some
            &&& p.tasks@[0]->0.inner.res is Some
        }),
        strampoline % PAGE_SIZE == 0,
        old(allocator).wf(),
        old(allocator).end() <= old(mem).npages(),
        old(mem).npages() <= usize::MAX / PAGE_SIZE,
    ensures
        final(fs).block_device.view() == old(fs).block_device.view(),
        ({
            let pid = processor.running()->0.pid;
            let p = old(processes)@[pid].inner;
            let pt = p.memory_set.pt();
            let disk = old(fs).block_device.view();
            let area = old(fs).inode_area_start_block as int;
            let full = encode_utf8(full_path(p.cwd@, user_str(pt, *old(mem), path as int)));
            let found = walk(disk, area, inode_of(area, 0), full);
            let data = bytes_from(found->0, disk, 0);
            let argc = user_args(pt, *old(mem), args as int)->0.len();
            let after = final(processes)@[pid];
            let t = after.inner.tasks@[0]->0;
            let cx = after.inner.memory_set.mappings()[trap_cx_vpn(t.inner.res->0.tid as int) as usize].ppn.0 as int;
            &&& r == -1 || r == argc
            &&& found is None ==> r == -1
            &&& !elf_parses(data) ==> r == -1
            &&& r == -1 ==> final(processes)@ == old(processes)@
            &&& r != -1 ==> {
                &&& final(processes)@.dom() == old(processes)@.dom()
                &&& forall|q: usize| q != pid && #[trigger] old(processes)@.contains_key(q)
                    ==> final(processes)@[q] == old(processes)@[q]
                &&& after.inner.tasks@.len() == 1
                &&& forall|w: int| 0 <= w < CX_WORDS && w != 2 && w != 11 ==> #[trigger] cx_word(final(mem).page(cx), w)
                    == exec_cx_word(w, elf_entry(data) as usize as u64, 0, kernel.sstatus as u64,
                        kernel.satp as u64, kernel.kernel_sp as u64, kernel.trap_handler as u64, argc as u64, 0)
            }
        }),
{
    let (full, strings) = match sys_exec(processor, processes, mem, path, args) {
        Some(request) => request,
        None => return -1,
    };
    let mut bytes: Vec<Vec<u8>> = Vec::new();
    let mut i: usize = 0;
    while i < strings.len()
        invariant
            i <= strings@.len(),
            bytes@.len() == i,
            forall|j: int| 0 <= j < i ==> #[trigger] bytes@[j]@ == encode_utf8(strings@[j]@),
        decreases strings@.len() - i,
    {
        bytes.push(strings[i].as_str().as_bytes_vec());
        i = i + 1;
    }
    let pid = crate::task::processor::current_pcb(processor);
    exec_program(processes, pid, fs, full.as_str(), &bytes, kernel, strampoline, allocator, mem)
}

/// Whether child `c` is the one `pid` asks for: -1 asks for any child.
pub open spec fn wanted(pid: isize, c: usize) -> bool {
    pid == -1 || pid as usize == c
}

/// Whether `idx` is the first child of `children` that is wanted and a zombie.
pub open spec fn first_zombie(
    children: Seq<usize>,
    processes: Map<usize, ProcessControlBlock>,
    pid: isize,
    idx: int,
) -> bool {
    &&& 0 <= idx < children.len()
    &&& wanted(pid, children[idx]) && processes[children[idx]].inner.is_zombie
    &&& forall|j: int| 0 <= j < idx ==> !(wanted(pid, #[trigger] children[j]) && processes[children[j]].inner.is_zombie)
}

/// Reap a child of the running thread's process: `pid` names the child, -1
/// any child. The first wanted child that is a zombie is removed, with its
/// process, its exit code is written to user memory at `exit_code_ptr` (four
/// bytes, little endian) and its pid and exit code are returned. -1 when no
/// child is wanted, -2 when none of the wanted ones has exited yet
pub fn sys_waitpid(
    processor: &Processor,
    processes: &mut BTreeMap<usize, ProcessControlBlock>,
    mem: &mut PhysMem,
    pid: isize,
    exit_code_ptr: usize,
) -> (r: (isize, Option<i32>))
    requires
        processor.running() is Some,
        old(processes)@.contains_key(processor.running()->0.pid),
        old(mem).wf(),
        (exists|idx: int| #[trigger] first_zombie(
            old(processes)@[processor.running()->0.pid].inner.children@,
            old(processes)@,
            pid,
            idx,
        )) ==> {
            let pt = old(processes)@[processor.running()->0.pid].inner.memory_set.pt();
            &&& forall|i: int| 0 <= i < 4 ==> #[trigger] readable(pt, *old(mem), exit_code_ptr + i)
            &&& injective_on(pt, exit_code_ptr as int, exit_code_ptr + 4)
        },
        forall|i: int| 0 <= i < old(processes)@[processor.running()->0.pid].inner.children@.len() ==> {
            let c = #[trigger] old(processes)@[processor.running()->0.pid].inner.children@[i];
            &&& old(processes)@.contains_key(c)
            &&& c != processor.running()->0.pid
            &&& c <= isize::MAX
        },
    ensures
        ({
            let me = processor.running()->0.pid;
            let children = old(processes)@[me].inner.children@;
            &&& (forall|i: int| 0 <= i < children.len() ==> !wanted(pid, #[trigger] children[i])) ==> {
                &&& r == (-1isize, None::<i32>)
                &&& final(processes)@ == old(processes)@
                &&& *final(mem) == *old(mem)
            }
            &&& (exists|i: int| 0 <= i < children.len() && wanted(pid, #[trigger] children[i]))
                && (forall|i: int| 0 <= i < children.len() ==> !(wanted(pid, #[trigger] children[i])
                    && old(processes)@[children[i]].inner.is_zombie)) ==> {
                &&& r == (-2isize, None::<i32>)
                &&& final(processes)@ == old(processes)@
                &&& *final(mem) == *old(mem)
            }
            &&& forall|idx: int| #[trigger] first_zombie(children, old(processes)@, pid, idx) ==> {
                let c = children[idx];
                let pt = old(processes)@[me].inner.memory_set.pt();
                let code = vstd::bytes::spec_u32_to_le_bytes(old(processes)@[c].inner.exit_code as u32);
                &&& r == (c as isize, Some(old(processes)@[c].inner.exit_code))
                &&& final(processes)@.dom() == old(processes)@.dom().remove(c)
                &&& final(processes)@[me].inner.children@ == children.remove(idx)
                &&& final(processes)@[me].inner.memory_set == old(processes)@[me].inner.memory_set
                &&& forall|i: int| 0 <= i < 4 ==> #[trigger] byte_at(pt, *final(mem), exit_code_ptr + i) == code[i]
                &&& forall|x: int| readable(pt, *old(mem), x) && !shares_place(pt, exit_code_ptr as int, 4, x)
                    ==> #[trigger] byte_at(pt, *final(mem), x) == byte_at(pt, *old(mem), x)
            }
        }),
{
    let me = crate::task::processor::current_pcb(processor);
    let n = processes.get(&me).unwrap().inner.children.len();
    let ghost children = old(processes)@[me].inner.children@;
    // is any child wanted?
    let mut any = false;
    let mut i: usize = 0;
    while i < n
        invariant
            n == children.len(),
            i <= n,
            old(processes)@.contains_key(me),
            children == processes@[me].inner.children@,
            processes@ == old(processes)@,
            any == exists|j: int| 0 <= j < i && wanted(pid, #[trigger] children[j]),
        decreases n - i,
    {
        let c = processes.get(&me).unwrap().inner.children[i];
        if pid == -1 || pid as usize == c {
            any = true;
        }
        proof {
            if wanted(pid, c) {
                assert(wanted(pid, children[i as int]));
            }
        }
        i = i + 1;
    }
    if !any {
        return (-1, None);
    }
    // the first wanted zombie
    let mut k: usize = 0;
    while k < n
        invariant_except_break
            forall|j: int| 0 <= j < k ==> !(wanted(pid, #[trigger] children[j]) && processes@[children[j]].inner.is_zombie),
        invariant
            n == children.len(),
            k <= n,
            old(processes)@.contains_key(me),
            children == processes@[me].inner.children@,
            processes@ == old(processes)@,
            forall|j: int| 0 <= j < children.len() ==> old(processes)@.contains_key(#[trigger] children[j]),
        ensures
            k < n ==> first_zombie(children, old(processes)@, pid, k as int),
            k >= n ==> forall|j: int| 0 <= j < n ==> !(wanted(pid, #[trigger] children[j])
                && old(processes)@[children[j]].inner.is_zombie),
        decreases n - k,
    {
        let c = processes.get(&me).unwrap().inner.children[k];
        assert(old(processes)@.contains_key(children[k as int]));
        if (pid == -1 || pid as usize == c) && processes.get(&c).unwrap().inner.is_zombie {
            break;
        }
        k = k + 1;
    }
    if k >= n {
        return (-2, None);
    }
    let mut pcb = processes.remove(&me).unwrap();
    let c = pcb.inner.children.remove(k);
    let child = processes.remove(&c).unwrap();
    let code_bytes = vstd::bytes::u32_to_le_bytes(child.inner.exit_code as u32);
    proof {
        assert(first_zombie(children, old(processes)@, pid, k as int));
    }
    write_user_bytes(pcb.inner.memory_set.page_table(), mem, exit_code_ptr, code_bytes.as_slice());
    processes.insert(me, pcb);
    proof {
        assert forall|idx: int| #[trigger] first_zombie(children, old(processes)@, pid, idx) implies idx == k by {
            if idx < k {
                assert(!(wanted(pid, children[idx]) && old(processes)@[children[idx]].inner.is_zombie));
            } else if idx > k {
                assert(!(wanted(pid, children[k as int]) && old(processes)@[children[k as int]].inner.is_zombie));
            }
        }
        assert(c != me);
        assert(processes@.dom() =~= old(processes)@.dom().remove(c));
    }
    (c as isize, Some(child.inner.exit_code))
}

/// Send `signal` to process `pid`: 0, or -1 when the process is not
/// registered or the signal is unknown
pub fn sys_kill(processes: &mut BTreeMap<usize, ProcessControlBlock>, pid: usize, signal: u32) -> (r: isize)
    ensures
        (old(processes)@.contains_key(pid) && !old(processes)@[pid].inner.is_zombie
            && signal & !known_signals() == 0) ==> {
            &&& r == 0
            &&& final(processes)@.dom() == old(processes)@.dom()
            &&& final(processes)@[pid].inner.signals.value() == old(processes)@[pid].inner.signals.value() | signal
            &&& forall|p: usize| p != pid && #[trigger] old(processes)@.contains_key(p) ==> final(processes)@[p] == old(processes)@[p]
        },
        !(old(processes)@.contains_key(pid) && !old(processes)@[pid].inner.is_zombie
            && signal & !known_signals() == 0) ==> r == -1 && final(processes)@ == old(processes)@,
{
    if crate::task::manager::pid2process(processes, pid).is_none() {
        return -1;
    }
    match SignalFlags::from_bits(signal) {
        Some(flag) => {
            let mut pcb = processes.remove(&pid).unwrap();
            pcb.inner.signals.insert(flag);
            processes.insert(pid, pcb);
            assert(processes@.dom() =~= old(processes)@.dom());
            0
        },
        None => -1,
    }
}

} // verus!
