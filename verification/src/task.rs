//! Tasks and processes: control blocks, the ready queue, the processor and
//! the decisions taken when the current task yields, blocks or exits.

pub mod id;
pub mod manager;
pub mod pcb;
pub mod processor;
pub mod signal;
pub mod tcb;

use vstd::prelude::*;
use std::collections::BTreeMap;
use self::manager::{task_exists, task_status, Manager};
use self::pcb::{KernelEntry, ProcessControlBlock, ProcessControlBlockInner};
use crate::trap::{cx_word, init_cx_word, CX_WORDS};
use self::processor::Processor;
use self::signal::SignalFlags;
use self::tcb::{trap_cx_vpn, user_res_fit, user_res_fits, ustack_bottom, ustack_end_vpn, Status, TaskRef, TaskUserRes, USER_STACK_SIZE};
use self::id::RecycleAllocator;
use crate::mm::address::{PhysMem, PAGE_SIZE};
use crate::mm::elf::{elf_entry, elf_parses, elf_ph_count, load_segments, ElfSegment};
use crate::mm::frame_allocator::StackFrameAllocator;
use crate::mm::memory_set::{
    image_fits, image_ustack_base, lemma_image_fits, loaded, seg_end_vpn, seg_first_vpn, segs_ok, segs_pages, trampoline_vpn,
    MemorySet,
};
use crate::mm::{arg_addr, args_fit, args_span, argv_base, holds_str, holds_u64};
use crate::trap::exec_cx_word;
use crate::easy_fs::efs::EasyFileSystem;
use crate::easy_fs::vfs::{inode_of, walk, walk_ok};
use crate::fs::inode::{bytes_from, find_inode, OSInode};
use vstd::string::StringSliceAdditionalSpecFns;

verus! {

broadcast use vstd::std_specs::btree::group_btree_axioms;

/// The pid of the process whose exit ends the system
pub const IDLE_PID: usize = 0;

/// The process that adopts orphans, made of the ELF file `elf_data` (see
/// [`MemorySet::from_elf_image`] and [`ProcessControlBlock::new`]), with kernel
/// stack `kstack`, its main thread starting at the file's entry point with
/// `kernel`'s values for the way back into the kernel; its pid. `None` when
/// the file cannot be loaded, the main
/// thread's user stack or trap context page cannot be placed beside it (see
/// [`image_fits`]), or `allocator` lacks frames for them; then no process
/// is made
#[verifier::rlimit(60)]
#[verifier::spinoff_prover]
pub fn init(
    processes: &mut BTreeMap<usize, ProcessControlBlock>,
    manager: &mut Manager,
    pids: &mut RecycleAllocator,
    elf_data: &[u8],
    kstack: usize,
    kernel: KernelEntry,
    strampoline: usize,
    allocator: &mut StackFrameAllocator,
    mem: &mut PhysMem,
) -> (r: Option<usize>)
    requires
        old(pids).wf(),
        old(pids).current() < usize::MAX,
        forall|p: usize| #[trigger] old(processes)@.contains_key(p) ==> old(pids).in_use(p as int),
        strampoline % PAGE_SIZE == 0,
        old(allocator).wf(),
        old(mem).wf(),
        old(allocator).end() <= old(mem).npages(),
    ensures
        ({
            let segs = load_segments(elf_data@, elf_ph_count(elf_data@) as int);
            let s = segs->0;
            let base = image_ustack_base(s);
            let res = TaskUserRes { tid: 0, ustack_base: base };
            let loads = elf_parses(elf_data@) && segs is Some && segs_ok(s, elf_data@.len() as int)
                && 1 + segs_pages(s) <= old(allocator).available();
            let fits = loads && image_fits(s, base) && old(allocator).available() - 1 - segs_pages(s)
                >= ustack_end_vpn(res) - ustack_bottom(res) / PAGE_SIZE as int + 1;
            &&& r is Some ==> fits
            &&& !fits ==> r is None
            &&& r is None ==> final(processes)@ == old(processes)@ && final(manager).queue() == old(manager).queue()
                && *final(pids) == *old(pids)
            &&& r matches Some(pid) ==> {
                &&& !old(processes)@.contains_key(pid)
                &&& final(processes)@ == old(processes)@.insert(pid, final(processes)@[pid])
                &&& final(processes)@[pid].pid == pid
                &&& final(processes)@[pid].inner.tasks@.len() == 1
                &&& final(processes)@[pid].inner.tasks@[0] is Some
                &&& final(processes)@[pid].inner.tasks@[0]->0.inner.res == Some(res)
                &&& final(processes)@[pid].inner.tasks@[0]->0.kstack == kstack
                &&& final(manager).queue() == old(manager).queue().push(TaskRef { pid, tid: 0 })
                &&& final(pids).in_use(pid as int)
                &&& !old(pids).in_use(pid as int)
                &&& final(pids).wf()
                &&& forall|w: int| 0 <= w < CX_WORDS ==> #[trigger] cx_word(
                    final(mem).page(final(processes)@[pid].inner.memory_set.mappings()[trap_cx_vpn(0) as usize].ppn.0 as int),
                    w,
                ) == init_cx_word(w, elf_entry(elf_data@) as usize as u64, (ustack_bottom(res) + USER_STACK_SIZE) as u64,
                    kernel.sstatus as u64, kernel.satp as u64, kernel.kernel_sp as u64, kernel.trap_handler as u64)
            }
        }),
{
    let ghost a0 = *old(allocator);
    let (ms, ustack_base, entry) = match MemorySet::from_elf_image(elf_data, strampoline, allocator, mem) {
        Some(loaded_image) => loaded_image,
        None => return None,
    };
    let ghost segs = load_segments(elf_data@, elf_ph_count(elf_data@) as int)->0;
    let res = TaskUserRes { tid: 0, ustack_base };
    proof {
        lemma_image_fits(ms, *mem, segs, elf_data@, strampoline, ustack_base);
    }
    if !user_res_fits(&res, &ms) {
        return None;
    }
    let first = ustack_base / PAGE_SIZE;
    let end = ((ustack_base as u64 + USER_STACK_SIZE as u64 + PAGE_SIZE as u64 - 1) / PAGE_SIZE as u64) as usize;
    assert(end == ustack_end_vpn(res));
    if allocator.available_frames() < (end - first + 1) as u128 {
        return None;
    }
    let pid = ProcessControlBlock::new(processes, manager, pids, ms, ustack_base, kstack, entry, kernel, allocator, mem);
    Some(pid)
}

/// Run the program at the absolute path `path` of `fs` in process `pid`,
/// which has one thread, with the arguments `args`: the file is found (see
/// [`find_inode`]) and read whole (see [`OSInode::read_all`]), an address
/// space is made of it (see [`MemorySet::from_elf_image`]) and becomes the
/// process's image (see [`ProcessControlBlock::exec`]), the thread starting
/// the program at its entry point with `kernel`'s values for the way back
/// into the kernel. Returns the number of arguments, which the program also
/// finds in a0; -1, with every process kept, when there is no such file, it
/// cannot be loaded, the thread's user stack or trap context page cannot be
/// placed beside it, `allocator` lacks frames for them, or the arguments do
/// not fit on that stack
#[verifier::rlimit(60)]
#[verifier::spinoff_prover]
pub fn exec_program(
    processes: &mut BTreeMap<usize, ProcessControlBlock>,
    pid: usize,
    fs: &mut EasyFileSystem,
    path: &str,
    args: &Vec<Vec<u8>>,
    kernel: KernelEntry,
    strampoline: usize,
    allocator: &mut StackFrameAllocator,
    mem: &mut PhysMem,
) -> (r: isize)
    requires
        old(fs).block_device.wf(),
        ({
            let disk = old(fs).block_device.view();
            let area = old(fs).inode_area_start_block as int;
            &&& walk_ok(disk, area, inode_of(area, 0), path.spec_bytes())
            &&& walk(disk, area, inode_of(area, 0), path.spec_bytes()) matches Some(n)
                ==> n.valid(disk) && n.disk_inode(disk).readable(disk)
        }),
        old(processes)@.contains_key(pid),
        old(processes)@[pid].inner.tasks@.len() == 1,
        old(processes)@[pid].inner.tasks@[0] is Some,
        old(processes)@[pid].inner.tasks@[0]->0.inner.res is Some,
        strampoline % PAGE_SIZE == 0,
        old(allocator).wf(),
        old(mem).wf(),
        old(allocator).end() <= old(mem).npages(),
        old(mem).npages() <= usize::MAX / PAGE_SIZE,
    ensures
        final(fs).block_device.wf(),
        final(fs).block_device.view() == old(fs).block_device.view(),
        final(fs).inode_area_start_block == old(fs).inode_area_start_block,
        ({
            let disk = old(fs).block_device.view();
            let area = old(fs).inode_area_start_block as int;
            let found = walk(disk, area, inode_of(area, 0), path.spec_bytes());
            let data = bytes_from(found->0, disk, 0);
            let segs = load_segments(data, elf_ph_count(data) as int);
            let s = segs->0;
            let loads = elf_parses(data) && segs is Some && segs_ok(s, data.len() as int)
                && 1 + segs_pages(s) <= old(allocator).available();
            let before = old(processes)@[pid];
            let after = final(processes)@[pid];
            let t0 = before.inner.tasks@[0]->0;
            let res = TaskUserRes { tid: t0.inner.res->0.tid, ustack_base: image_ustack_base(s) };
            let top = ustack_bottom(res) + USER_STACK_SIZE;
            let argc = args@.len() as int;
            let argv = argv_base(top, args@);
            let sp = argv - args_span(args@, argc);
            let ms = after.inner.memory_set;
            let cx = ms.mappings()[trap_cx_vpn(res.tid as int) as usize].ppn.0 as int;
            &&& r == -1 || r == argc
            &&& found is None ==> r == -1
            &&& !loads ==> r == -1
            &&& r == -1 ==> final(processes)@ == old(processes)@
            &&& r != -1 ==> {
                &&& found is Some && loads
                &&& res.tid == 0 ==> image_fits(s, res.ustack_base)
                &&& (argc + 1) * 8 + args_span(args@, argc) <= USER_STACK_SIZE
                &&& final(processes)@.dom() == old(processes)@.dom()
                &&& forall|p: usize| p != pid && #[trigger] old(processes)@.contains_key(p)
                    ==> final(processes)@[p] == old(processes)@[p]
                &&& after == (ProcessControlBlock {
                    inner: ProcessControlBlockInner { memory_set: ms, tasks: after.inner.tasks, ..before.inner },
                    ..before
                })
                &&& after.inner.tasks@.len() == 1
                &&& after.inner.tasks@[0] is Some
                &&& after.inner.tasks@[0]->0.inner.res == Some(res)
                &&& ms.wf()
                &&& ms.frames_allocated(*final(allocator))
                &&& holds_u64(ms.pt(), *final(mem), argv + 8 * argc, 0)
                &&& forall|i: int| 0 <= i < argc
                    ==> #[trigger] holds_u64(ms.pt(), *final(mem), argv + 8 * i, arg_addr(top, args@, i) as u64)
                &&& forall|i: int| 0 <= i < argc
                    ==> #[trigger] holds_str(ms.pt(), *final(mem), arg_addr(top, args@, i), args@[i]@)
                &&& forall|w: int| 0 <= w < CX_WORDS ==> #[trigger] cx_word(final(mem).page(cx), w)
                    == exec_cx_word(w, elf_entry(data) as usize as u64, sp as u64, kernel.sstatus as u64,
                        kernel.satp as u64, kernel.kernel_sp as u64, kernel.trap_handler as u64, argc as u64, argv as u64)
            }
        }),
{
    let node = match find_inode(path, fs) {
        Some(n) => n,
        None => return -1,
    };
    let mut file = OSInode::new(true, false, node);
    let data = file.read_all(fs);
    let ghost a0 = *old(allocator);
    let (ms, ustack_base, entry) = match MemorySet::from_elf_image(data.as_slice(), strampoline, allocator, mem) {
        Some(loaded_image) => loaded_image,
        None => return -1,
    };
    let ghost segs = load_segments(data@, elf_ph_count(data@) as int)->0;
    let tid = processes.get(&pid).unwrap().inner.tasks[0].as_ref().unwrap().inner.res.as_ref().unwrap().tid;
    let res = TaskUserRes { tid, ustack_base };
    proof {
        lemma_image_fits(ms, *mem, segs, data@, strampoline, ustack_base);
    }
    if !user_res_fits(&res, &ms) {
        return -1;
    }
    let bottom = ustack_base + tid * (PAGE_SIZE + USER_STACK_SIZE);
    let first = bottom / PAGE_SIZE;
    let end = ((bottom as u64 + USER_STACK_SIZE as u64 + PAGE_SIZE as u64 - 1) / PAGE_SIZE as u64) as usize;
    assert(end == ustack_end_vpn(res));
    if allocator.available_frames() < (end - first + 1) as u128 {
        return -1;
    }
    if !args_fit(args, USER_STACK_SIZE) {
        return -1;
    }
    let _ = ProcessControlBlock::exec(processes, pid, ms, ustack_base, args, entry, kernel, allocator, mem);
    args.len() as isize
}

/// Put the running thread, which must exist, back at the end of the ready
/// queue; it is returned so that the scheduler saves its context
pub fn suspend_current_and_run_next(
    processor: &mut Processor,
    manager: &mut Manager,
    processes: &mut BTreeMap<usize, ProcessControlBlock>,
) -> (task: TaskRef)
    requires
        old(processor).running() is Some,
        task_exists(old(processes)@, old(processor).running()->0),
    ensures
        task == old(processor).running()->0,
        final(processor).running() == None::<TaskRef>,
        final(manager).queue() == old(manager).queue().push(task),
        final(processes)@.dom() == old(processes)@.dom(),
        task_exists(final(processes)@, task),
        task_status(final(processes)@, task) == Status::Ready,
        forall|p: usize| p != task.pid && #[trigger] old(processes)@.contains_key(p)
            ==> final(processes)@[p] == old(processes)@[p],
        final(processes)@[task.pid] == (ProcessControlBlock {
            inner: self::pcb::ProcessControlBlockInner {
                tasks: final(processes)@[task.pid].inner.tasks,
                ..old(processes)@[task.pid].inner
            },
            ..old(processes)@[task.pid]
        }),
{
    let task = processor.take_current().unwrap();
    manager::set_task_status(processes, task, Status::Ready);
    manager::add(manager, task);
    task
}

/// Take the running thread, which must exist, off the processor and mark it
/// blocked; it is returned so that the scheduler saves its context
pub fn block_current(processor: &mut Processor, processes: &mut BTreeMap<usize, ProcessControlBlock>) -> (task: TaskRef)
    requires
        old(processor).running() is Some,
        task_exists(old(processes)@, old(processor).running()->0),
    ensures
        task == old(processor).running()->0,
        final(processor).running() == None::<TaskRef>,
        final(processes)@.dom() == old(processes)@.dom(),
        task_exists(final(processes)@, task),
        task_status(final(processes)@, task) == Status::Blocked,
        forall|p: usize| p != task.pid && #[trigger] old(processes)@.contains_key(p)
            ==> final(processes)@[p] == old(processes)@[p],
        final(processes)@[task.pid] == (ProcessControlBlock {
            inner: self::pcb::ProcessControlBlockInner {
                tasks: final(processes)@[task.pid].inner.tasks,
                ..old(processes)@[task.pid].inner
            },
            ..old(processes)@[task.pid]
        }),
        forall|t: TaskRef| t != task && #[trigger] task_exists(old(processes)@, t) ==> task_exists(final(processes)@, t)
            && task_status(final(processes)@, t) == task_status(old(processes)@, t),
{
    let task = processor.take_current().unwrap();
    manager::set_task_status(processes, task, Status::Blocked);
    proof {
        assert forall|t: TaskRef| t != task && #[trigger] task_exists(old(processes)@, t) implies task_exists(processes@, t)
            && task_status(processes@, t) == task_status(old(processes)@, t) by {
            if t.pid == task.pid {
                assert(t.tid != task.tid);
                assert(processes@[t.pid].inner.tasks@[t.tid as int] == old(processes)@[t.pid].inner.tasks@[t.tid as int]);
            }
        }
    }
    task
}

/// Block the running thread and let the scheduler run another one
pub fn block_current_and_run_next(
    processor: &mut Processor,
    processes: &mut BTreeMap<usize, ProcessControlBlock>,
) -> (task: TaskRef)
    requires
        old(processor).running() is Some,
        task_exists(old(processes)@, old(processor).running()->0),
    ensures
        task == old(processor).running()->0,
        final(processor).running() == None::<TaskRef>,
        final(processes)@.dom() == old(processes)@.dom(),
        task_exists(final(processes)@, task),
        task_status(final(processes)@, task) == Status::Blocked,
        forall|p: usize| p != task.pid && #[trigger] old(processes)@.contains_key(p)
            ==> final(processes)@[p] == old(processes)@[p],
{
    block_current(processor, processes)
}

/// The first pending error signal of the running thread's process, as an
/// exit code and a message
pub fn check_signals_error_of_current(
    processor: &Processor,
    processes: &BTreeMap<usize, ProcessControlBlock>,
) -> (r: Option<(i32, &'static str)>)
    requires
        processor.running() is Some,
        processes@.contains_key(processor.running()->0.pid),
    ensures
        r == processes@[processor.running()->0.pid].inner.signals.check_error_spec(),
{
    let pid = processor::current_pcb(processor);
    processes.get(&pid).unwrap().inner.signals.check_error()
}

/// Add `signal` to the pending signals of the running thread's process
pub fn add_signal_to_current(
    processor: &Processor,
    processes: &mut BTreeMap<usize, ProcessControlBlock>,
    signal: SignalFlags,
)
    requires
        processor.running() is Some,
        old(processes)@.contains_key(processor.running()->0.pid),
    ensures
        final(processes)@.dom() == old(processes)@.dom(),
        final(processes)@[processor.running()->0.pid].inner.signals.value()
            == old(processes)@[processor.running()->0.pid].inner.signals.value() | signal.value(),
        forall|p: usize| p != processor.running()->0.pid && #[trigger] old(processes)@.contains_key(p)
            ==> final(processes)@[p] == old(processes)@[p],
{
    let pid = processor::current_pcb(processor);
    let mut pcb = processes.remove(&pid).unwrap();
    pcb.inner.signals.insert(signal);
    processes.insert(pid, pcb);
    assert(processes@.dom() =~= old(processes)@.dom());
}

/// What follows the exit of the running thread
#[derive(Clone, Copy, Debug, PartialEq, Eq, Structural)]
pub enum ExitOutcome {
    /// The idle process ended: shut the machine down, reporting a failure
    /// when the exit code is not zero
    Shutdown(bool),
    /// Run the next thread
    RunNext,
}

/// Make process `child` a child of `parent`
fn set_parent(processes: &mut BTreeMap<usize, ProcessControlBlock>, child: usize, parent: usize)
    requires
        old(processes)@.contains_key(child),
    ensures
        final(processes)@.dom() == old(processes)@.dom(),
        final(processes)@[child].inner.parent == Some(parent),
        final(processes)@[child].inner.children@ == old(processes)@[child].inner.children@,
        final(processes)@[child] == (ProcessControlBlock {
            inner: ProcessControlBlockInner { parent: Some(parent), ..old(processes)@[child].inner },
            ..old(processes)@[child]
        }),
        forall|p: usize| p != child && #[trigger] old(processes)@.contains_key(p) ==> final(processes)@[p] == old(processes)@[p],
{
    let mut pcb = processes.remove(&child).unwrap();
    pcb.inner.parent = Some(parent);
    processes.insert(child, pcb);
    assert(processes@.dom() =~= old(processes)@.dom());
}

/// Whether the exit of the main thread of `pid` can be carried out: the
/// process is registered, and the daemon that adopts its children is another
/// registered process, which is none of the children, all of them known.
pub open spec fn exit_ok(processes: Map<usize, ProcessControlBlock>, pid: usize, daemon: usize) -> bool {
    &&& !processes[pid].inner.is_zombie
    &&& processes.contains_key(daemon)
    &&& daemon != pid
    &&& forall|i: int| 0 <= i < processes[pid].inner.children@.len() ==> {
        let c = #[trigger] processes[pid].inner.children@[i];
        &&& processes.contains_key(c)
        &&& c != daemon
        &&& c != pid
    }
    &&& processes[pid].inner.memory_set.wf()
}

/// What the exit of thread `task` with `exit_code` does to the processes
/// `before_m`, giving `after_m` (see [`exit_current_and_run_next`]): a thread
/// that is not its process's main thread is marked exited with the code and
/// its resources released, every other process kept; a main thread makes its
/// process, if not the idle one, a zombie with that code, whose children go to
/// the daemon process `daemon`, whose threads' resources, data areas and open
/// files are released, and the other processes are kept.
pub open spec fn exit_effect(
    before_m: Map<usize, ProcessControlBlock>,
    after_m: Map<usize, ProcessControlBlock>,
    task: TaskRef,
    exit_code: i32,
    daemon: usize,
) -> bool {
    let tcb = before_m[task.pid].inner.tasks@[task.tid as int]->0;
    let main = tcb.inner.res->0.tid == 0;
    let before = before_m[task.pid].inner;
    let after = after_m[task.pid].inner;
    &&& !main ==> {
        &&& after.tasks@[task.tid as int] == Some(super::task::tcb::TaskControlBlock {
            inner: super::task::tcb::TaskControlBlockInner { exit_code: Some(exit_code), res: None, ..tcb.inner },
            ..tcb
        })
        &&& forall|p: usize| p != task.pid && #[trigger] before_m.contains_key(p)
            ==> after_m[p] == before_m[p]
    }
    &&& (main && task.pid != IDLE_PID) ==> {
        &&& after.is_zombie
        &&& after.exit_code == exit_code
        &&& after.children@ == Seq::<usize>::empty()
        &&& after.fd_table@.len() == 0
        &&& after.tasks@.len() <= 1
        &&& after.memory_set.areas() == Seq::<crate::mm::memory_set::MapArea>::empty()
        &&& after_m[daemon].inner.children@
            == before_m[daemon].inner.children@ + before.children@
        &&& forall|i: int| 0 <= i < before.children@.len()
            ==> after_m[#[trigger] before.children@[i]].inner.parent == Some(daemon)
        &&& forall|i: int| 0 <= i < before.children@.len() ==> {
            let c = #[trigger] before.children@[i];
            after_m[c] == (ProcessControlBlock {
                inner: ProcessControlBlockInner { parent: Some(daemon), ..before_m[c].inner },
                ..before_m[c]
            })
        }
        &&& after_m[daemon] == (ProcessControlBlock {
            inner: ProcessControlBlockInner {
                children: after_m[daemon].inner.children,
                ..before_m[daemon].inner
            },
            ..before_m[daemon]
        })
        &&& forall|p: usize| #[trigger] before_m.contains_key(p) && p != task.pid && p != daemon
            && !before.children@.contains(p) ==> after_m[p] == before_m[p]
        &&& task.tid < after.tasks@.len() ==> after.tasks@[task.tid as int] == Some(super::task::tcb::TaskControlBlock {
            inner: super::task::tcb::TaskControlBlockInner { exit_code: Some(exit_code), res: None, ..tcb.inner },
            ..tcb
        })
        &&& forall|j: int| 0 <= j < after.tasks@.len() && #[trigger] after.tasks@[j] is Some
            ==> after.tasks@[j]->0.inner.res is None
        &&& after_m[task.pid].pid == before_m[task.pid].pid
        &&& after.parent == before.parent
    }
}

/// End the running thread with `exit_code`. When it is the main thread of
/// its process, the process becomes a zombie with that exit code: its
/// children go to the daemon process `daemon`, and its threads' resources,
/// data areas and open files are released; it keeps only its main thread.
/// When that process is the idle one, the machine must shut down instead.
pub fn exit_current_and_run_next(
    processor: &mut Processor,
    processes: &mut BTreeMap<usize, ProcessControlBlock>,
    exit_code: i32,
    daemon: usize,
) -> (outcome: ExitOutcome)
    requires
        old(processor).running() is Some,
        task_exists(old(processes)@, old(processor).running()->0),
        ({
            let task = old(processor).running()->0;
            let tcb = old(processes)@[task.pid].inner.tasks@[task.tid as int]->0;
            &&& tcb.inner.res is Some
            &&& (tcb.inner.res->0.tid == 0 && task.pid != IDLE_PID) ==> exit_ok(old(processes)@, task.pid, daemon)
        }),
    ensures
        final(processor).running() == None::<TaskRef>,
        final(processes)@.dom() == old(processes)@.dom(),
        ({
            let task = old(processor).running()->0;
            let tcb = old(processes)@[task.pid].inner.tasks@[task.tid as int]->0;
            let main = tcb.inner.res->0.tid == 0;
            &&& (main && task.pid == IDLE_PID) ==> outcome == ExitOutcome::Shutdown(exit_code != 0)
            &&& !(main && task.pid == IDLE_PID) ==> outcome == ExitOutcome::RunNext
        }),
        exit_effect(old(processes)@, final(processes)@, old(processor).running()->0, exit_code, daemon),
{
    let task = processor.take_current().unwrap();
    let mut pcb = processes.remove(&task.pid).unwrap();
    let ghost before = pcb.inner;
    let mut tcb = pcb.inner.tasks[task.tid].unwrap();
    let tid = tcb.inner.res.unwrap().tid;
    tcb.inner.exit_code = Some(exit_code);
    tcb.inner.res = None;
    pcb.inner.tasks.set(task.tid, Some(tcb));
    if tid != 0 {
        processes.insert(task.pid, pcb);
        assert(processes@.dom() =~= old(processes)@.dom());
        return ExitOutcome::RunNext;
    }
    let pid = pcb.pid;
    if task.pid == IDLE_PID {
        processes.insert(task.pid, pcb);
        assert(processes@.dom() =~= old(processes)@.dom());
        return ExitOutcome::Shutdown(exit_code != 0);
    }
    pcb.inner.is_zombie = true;
    pcb.inner.exit_code = exit_code;
    let children = pcb.inner.children.clone();
    // every thread gives its resources back
    let ghost tasks1 = pcb.inner.tasks@;
    let mut t: usize = 0;
    while t < pcb.inner.tasks.len()
        invariant
            t <= pcb.inner.tasks@.len(),
            pcb.inner.tasks@.len() == tasks1.len(),
            pcb.inner.memory_set == before.memory_set,
            pcb.inner.memory_set.wf(),
            pcb.inner.is_zombie,
            pcb.inner.exit_code == exit_code,
            pcb.inner.children@ == before.children@,
            pcb.inner.parent == before.parent,
            pcb.pid == old(processes)@[task.pid].pid,
            forall|j: int| 0 <= j < t && #[trigger] pcb.inner.tasks@[j] is Some ==> pcb.inner.tasks@[j]->0.inner.res is None,
            forall|j: int| t <= j < tasks1.len() ==> #[trigger] pcb.inner.tasks@[j] == tasks1[j],
            forall|j: int| 0 <= j < t ==> (#[trigger] pcb.inner.tasks@[j] is Some <==> tasks1[j] is Some),
            forall|j: int| 0 <= j < t && tasks1[j] is Some ==> #[trigger] pcb.inner.tasks@[j] == Some(super::task::tcb::TaskControlBlock {
                inner: super::task::tcb::TaskControlBlockInner { res: None, ..tasks1[j]->0.inner },
                ..tasks1[j]->0
            }),
        decreases pcb.inner.tasks@.len() - t,
    {
        match pcb.inner.tasks[t] {
            Some(mut other) => {
                other.inner.res = None;
                pcb.inner.tasks.set(t, Some(other));
            },
            None => {},
        }
        t = t + 1;
    }
    pcb.inner.children.clear();
    pcb.inner.memory_set.recycle_data_pages();
    pcb.inner.fd_table.clear();
    pcb.inner.tasks.truncate(1);
    let ghost after = pcb.inner;
    proof {
        if task.tid < after.tasks@.len() {
            assert(after.tasks@[task.tid as int] == Some(super::task::tcb::TaskControlBlock {
                inner: super::task::tcb::TaskControlBlockInner { res: None, ..tasks1[task.tid as int]->0.inner },
                ..tasks1[task.tid as int]->0
            }));
        }
    }
    processes.insert(task.pid, pcb);
    // the daemon adopts the children
    let ghost p1 = processes@;
    let mut k: usize = 0;
    while k < children.len()
        invariant
            children@ == before.children@,
            k <= children@.len(),
            processes@.dom() == old(processes)@.dom(),
            processes@[task.pid].inner == after,
            old(processes)@.contains_key(daemon),
            old(processes)@.contains_key(task.pid),
            daemon != task.pid,
            forall|i: int| 0 <= i < children@.len() ==> {
                let c = #[trigger] children@[i];
                &&& old(processes)@.contains_key(c)
                &&& c != daemon
                &&& c != task.pid
            },
            forall|i: int| 0 <= i < k ==> processes@[#[trigger] children@[i]].inner.parent == Some(daemon),
            processes@[daemon].inner.children@ == old(processes)@[daemon].inner.children@ + children@.take(k as int),
            forall|i: int| 0 <= i < k ==> {
                let c = #[trigger] children@[i];
                processes@[c] == (ProcessControlBlock {
                    inner: ProcessControlBlockInner { parent: Some(daemon), ..old(processes)@[c].inner },
                    ..old(processes)@[c]
                })
            },
            processes@[daemon] == (ProcessControlBlock {
                inner: ProcessControlBlockInner {
                    children: processes@[daemon].inner.children,
                    ..old(processes)@[daemon].inner
                },
                ..old(processes)@[daemon]
            }),
            forall|p: usize| #[trigger] old(processes)@.contains_key(p) && p != task.pid && p != daemon
                && !children@.take(k as int).contains(p) ==> processes@[p] == old(processes)@[p],
            processes@[task.pid].pid == old(processes)@[task.pid].pid,
        decreases children@.len() - k,
    {
        let c = children[k];
        let ghost pk = processes@;
        set_parent(processes, c, daemon);
        let ghost pk1 = processes@;
        assert(pk1[task.pid] == pk[task.pid]);
        let mut d = processes.remove(&daemon).unwrap();
        d.inner.children.push(c);
        processes.insert(daemon, d);
        proof {
            assert(processes@[task.pid] == pk1[task.pid]);
            assert(processes@.dom() =~= old(processes)@.dom());
            assert(children@.take(k + 1) == children@.take(k as int).push(c));
            assert forall|i: int| 0 <= i < k + 1 implies {
                let cc = #[trigger] children@[i];
                processes@[cc] == (ProcessControlBlock {
                    inner: ProcessControlBlockInner { parent: Some(daemon), ..old(processes)@[cc].inner },
                    ..old(processes)@[cc]
                })
            } by {
                let cc = children@[i];
                if i < k && cc != c {
                    assert(pk[cc] == pk1[cc]);
                }
                if cc == c {
                    if children@.take(k as int).contains(c) {
                        let ii = choose|ii: int| 0 <= ii < k && children@.take(k as int)[ii] == c;
                        assert(children@[ii] == c);
                    }
                }
            }
            assert forall|p: usize| #[trigger] old(processes)@.contains_key(p) && p != task.pid && p != daemon
                && !children@.take(k + 1).contains(p) implies processes@[p] == old(processes)@[p] by {
                assert(p != c) by {
                    if p == c {
                        assert(children@.take(k + 1)[k as int] == c);
                    }
                }
                if children@.take(k as int).contains(p) {
                    let ii = choose|ii: int| 0 <= ii < k && children@.take(k as int)[ii] == p;
                    assert(children@.take(k + 1)[ii] == p);
                }
            }
            assert forall|i: int| 0 <= i < k + 1 implies processes@[#[trigger] children@[i]].inner.parent == Some(daemon) by {
                if i < k {
                    assert(pk[children@[i]].inner.parent == Some(daemon));
                }
            }
        }
        k = k + 1;
    }
    assert(children@.take(k as int) == children@);
    ExitOutcome::RunNext
}

} // verus!
