//! Thread system calls.

use vstd::prelude::*;
use std::collections::BTreeMap;
use crate::mm::address::{PhysMem, VirtAddr, PAGE_SIZE};
use crate::mm::frame_allocator::StackFrameAllocator;
use crate::mm::memory_set::newly_allocated;
use crate::task::manager::{task_exists, Manager};
use crate::task::pcb::{KernelEntry, ProcessControlBlock};
use crate::task::processor::Processor;
use crate::task::tcb::{
    trap_cx_vpn, user_res_fit, ustack_bottom, ustack_end_vpn, Status, TaskControlBlock, TaskRef, TaskUserRes,
    USER_STACK_SIZE,
};
use crate::trap::{cx_word, exec_cx_word, exec_init_context, CX_WORDS};

verus! {

broadcast use vstd::std_specs::btree::group_btree_axioms;

/// The id of the running thread, which has its resources
pub fn sys_gettid(processor: &Processor, processes: &BTreeMap<usize, ProcessControlBlock>) -> (r: isize)
    requires
        processor.running() is Some,
        task_exists(processes@, processor.running()->0),
        processes@[processor.running()->0.pid].inner.tasks@[processor.running()->0.tid as int]->0.inner.res is Some,
        processes@[processor.running()->0.pid].inner.tasks@[processor.running()->0.tid as int]->0.inner.res->0.tid
            <= isize::MAX,
    ensures
        r == processes@[processor.running()->0.pid].inner.tasks@[processor.running()->0.tid as int]->0.inner.res->0.tid,
{
    let task = processor.current().unwrap();
    let process = processes.get(&task.pid).unwrap();
    process.inner.task(task.tid).inner.res.unwrap().tid as isize
}

/// Reap thread `tid` of the running thread's process: its exit code once it
/// has exited, when its slot is freed; -1 when it is the running thread or
/// does not exist (its slot is past the table or empty), -2 when it has not
/// exited yet
pub fn sys_waittid(processor: &Processor, processes: &mut BTreeMap<usize, ProcessControlBlock>, tid: usize) -> (r: i32)
    requires
        processor.running() is Some,
        task_exists(old(processes)@, processor.running()->0),
        old(processes)@[processor.running()->0.pid].inner.tasks@[processor.running()->0.tid as int]->0.inner.res is Some,
    ensures
        ({
            let me = processor.running()->0;
            let tasks = old(processes)@[me.pid].inner.tasks@;
            let my_tid = tasks[me.tid as int]->0.inner.res->0.tid;
            &&& my_tid == tid ==> r == -1 && final(processes)@ == old(processes)@
            &&& my_tid != tid && tid >= tasks.len() ==> r == -1 && final(processes)@ == old(processes)@
            &&& my_tid != tid && tid < tasks.len() && tasks[tid as int] is None ==> r == -1
                && final(processes)@ == old(processes)@
            &&& my_tid != tid && tid < tasks.len() && tasks[tid as int] is Some && tasks[tid as int]->0.inner.exit_code is None
                ==> r == -2 && final(processes)@ == old(processes)@
            &&& my_tid != tid && tid < tasks.len() && tasks[tid as int] is Some && tasks[tid as int]->0.inner.exit_code is Some ==> {
                &&& r == tasks[tid as int]->0.inner.exit_code->0
                &&& final(processes)@.dom() == old(processes)@.dom()
                &&& final(processes)@[me.pid].inner.tasks@ == tasks.update(tid as int, None)
                &&& forall|p: usize| p != me.pid && #[trigger] old(processes)@.contains_key(p)
                    ==> final(processes)@[p] == old(processes)@[p]
            }
        }),
{
    let task = processor.current().unwrap();
    let my_tid = processes.get(&task.pid).unwrap().inner.task(task.tid).inner.res.unwrap().tid;
    if my_tid == tid {
        return -1;
    }
    if tid >= processes.get(&task.pid).unwrap().inner.tasks.len() {
        return -1;
    }
    let waited = processes.get(&task.pid).unwrap().inner.tasks[tid];
    match waited {
        Some(t) => match t.inner.exit_code {
            Some(code) => {
                let mut pcb = processes.remove(&task.pid).unwrap();
                pcb.inner.tasks.set(tid, None);
                processes.insert(task.pid, pcb);
                assert(processes@.dom() =~= old(processes)@.dom());
                code
            },
            None => -2,
        },
        None => -1,
    }
}

/// What creating a thread in the running thread's process needs: the
/// running thread has its resources, the process can hand out one more
/// thread id, and the user stack and trap context page of the thread that
/// id names fit in the process's address space, whose frames `allocator`
/// hands out and which can hand out a frame for each of their pages.
pub open spec fn thread_create_ok(
    processor: Processor,
    processes: Map<usize, ProcessControlBlock>,
    allocator: StackFrameAllocator,
    mem: PhysMem,
) -> bool {
    let me = processor.running()->0;
    let inner = processes[me.pid].inner;
    let me_res = inner.tasks@[me.tid as int]->0.inner.res;
    let res = TaskUserRes { tid: inner.task_res_allocator.next_id() as usize, ustack_base: me_res->0.ustack_base };
    &&& processor.running() is Some
    &&& task_exists(processes, me)
    &&& me_res is Some
    &&& inner.task_res_allocator.wf()
    &&& inner.task_res_allocator.current() < isize::MAX
    &&& user_res_fit(res, inner.memory_set)
    &&& inner.memory_set.wf()
    &&& inner.memory_set.frames_allocated(allocator)
    &&& allocator.wf()
    &&& mem.wf()
    &&& allocator.end() <= mem.npages()
    &&& allocator.available() >= ustack_end_vpn(res) - ustack_bottom(res) / PAGE_SIZE as int + 1
}

/// Create a thread in the running thread's process that starts at `entry`
/// with `arg` in a0: it gets a fresh thread id, returned, the running
/// thread's user stack base, kernel stack `kstack`, and its user stack and
/// trap context page mapped in the process's address space (see
/// [`TaskUserRes::alloc_user_res`]); its trap context is set to start at
/// `entry` on the top of its user stack with `kernel`'s values for the way
/// back into the kernel; it takes slot `tid` (the slots are extended with
/// empty ones when they end before it), every other slot is kept, and it is
/// queued ready
pub fn sys_thread_create(
    processor: &Processor,
    manager: &mut Manager,
    processes: &mut BTreeMap<usize, ProcessControlBlock>,
    entry: usize,
    arg: usize,
    kstack: usize,
    kernel: KernelEntry,
    allocator: &mut StackFrameAllocator,
    mem: &mut PhysMem,
) -> (r: isize)
    requires
        thread_create_ok(*processor, old(processes)@, *old(allocator), *old(mem)),
    ensures
        ({
            let me = processor.running()->0;
            let before = old(processes)@[me.pid].inner;
            let after = final(processes)@[me.pid].inner;
            let tid = r as usize;
            let res = TaskUserRes { tid, ustack_base: before.tasks@[me.tid as int]->0.inner.res->0.ustack_base };
            let n = before.memory_set.areas().len() as int;
            let ms = after.memory_set;
            let ppn = ms.mappings()[trap_cx_vpn(tid as int) as usize].ppn;
            &&& 0 <= r
            &&& tid == before.task_res_allocator.next_id()
            &&& !before.task_res_allocator.in_use(tid as int)
            &&& after.task_res_allocator.in_use(tid as int)
            &&& forall|q: int| q != tid ==> #[trigger] after.task_res_allocator.in_use(q)
                == before.task_res_allocator.in_use(q)
            &&& after.task_res_allocator.wf()
            &&& after.tasks@.len() == (if tid < before.tasks@.len() { before.tasks@.len() as int } else { tid + 1 })
            &&& forall|j: int| 0 <= j < before.tasks@.len() && j != tid ==> #[trigger] after.tasks@[j] == before.tasks@[j]
            &&& forall|j: int| before.tasks@.len() <= j < tid ==> #[trigger] after.tasks@[j] is None
            &&& after.tasks@[tid as int] == Some(TaskControlBlock {
                process: me.pid,
                kstack,
                inner: crate::task::tcb::TaskControlBlockInner {
                    res: Some(res),
                    trap_cx_ppn: ppn,
                    task_status: Status::Ready,
                    exit_code: None,
                },
            })
            &&& ms.wf()
            &&& ms.frames_allocated(*final(allocator))
            &&& ms.areas() == before.memory_set.areas().push(ms.areas()[n]).push(ms.areas()[n + 1])
            &&& ms.areas()[n].vpn_range.start.0 == ustack_bottom(res) / PAGE_SIZE as int
            &&& ms.areas()[n].vpn_range.end.0 == ustack_end_vpn(res)
            &&& ms.areas()[n + 1].vpn_range.start.0 == trap_cx_vpn(tid as int)
            &&& ms.areas()[n + 1].vpn_range.end.0 == trap_cx_vpn(tid as int) + 1
            &&& ms.mappings().contains_key(trap_cx_vpn(tid as int) as usize)
            &&& forall|w: int| 0 <= w < CX_WORDS ==> #[trigger] cx_word(final(mem).page(ppn.0 as int), w)
                == exec_cx_word(w, entry as u64, (ustack_bottom(res) + USER_STACK_SIZE) as u64, kernel.sstatus as u64,
                    kernel.satp as u64, kernel.kernel_sp as u64, kernel.trap_handler as u64, arg as u64, 0)
            &&& final(manager).queue() == old(manager).queue().push(TaskRef { pid: me.pid, tid })
            &&& final(processes)@.dom() == old(processes)@.dom()
            &&& forall|p: usize| p != me.pid && #[trigger] old(processes)@.contains_key(p)
                ==> final(processes)@[p] == old(processes)@[p]
        }),
        forall|q: int| #[trigger] old(allocator).is_allocated(q) ==> final(allocator).is_allocated(q),
        final(allocator).wf(),
        final(allocator).end() == old(allocator).end(),
        final(mem).wf(),
        final(mem).npages() == old(mem).npages(),
        forall|r: int| final(mem).has(r) && !newly_allocated(*old(allocator), *final(allocator), r)
            ==> #[trigger] final(mem).page(r) == old(mem).page(r),
{
    let me = processor.current().unwrap();
    let mut pcb = processes.remove(&me.pid).unwrap();
    let ustack_base = pcb.inner.task(me.tid).inner.res.unwrap().ustack_base;
    let tid = pcb.inner.alloc_tid();
    let res = TaskUserRes { tid, ustack_base };
    let ghost ms0 = pcb.inner.memory_set;
    res.alloc_user_res(&mut pcb.inner.memory_set, allocator, mem);
    proof {
        let tc = pcb.inner.memory_set.areas()[pcb.inner.memory_set.areas().len() - 1];
        assert(tc.has_vpn(trap_cx_vpn(tid as int)));
        assert(pcb.inner.memory_set.mappings().contains_key(trap_cx_vpn(tid as int) as usize));
    }
    let trap_va = VirtAddr::from_usize(res.trap_cx_user_va());
    let trap_cx_ppn = pcb.inner.memory_set.translate(trap_va.as_vpn_by_floor()).unwrap().ppn;
    let ghost m1 = *mem;
    proof {
        let n = pcb.inner.memory_set.areas().len() - 2;
        let tc = pcb.inner.memory_set.areas()[n + 1];
        let tv = trap_cx_vpn(tid as int) as usize;
        assert(tc.has_vpn(tv as int));
        assert(pcb.inner.memory_set.frames().contains_key(tv));
        pcb.inner.memory_set.lemma_frames();
        assert(trap_cx_ppn.0 == pcb.inner.memory_set.frames()[tv]);
    }
    let top = res.ustack_top();
    exec_init_context(
        mem,
        trap_cx_ppn.0,
        entry as u64,
        top as u64,
        kernel.sstatus as u64,
        kernel.satp as u64,
        kernel.kernel_sp as u64,
        kernel.trap_handler as u64,
        arg as u64,
        0,
    );
    let new_task = TaskControlBlock::new(me.pid, kstack, res, trap_cx_ppn);
    crate::task::manager::add(manager, TaskRef { pid: me.pid, tid });
    let ghost t0 = pcb.inner.tasks@;
    let ghost ra = pcb.inner.task_res_allocator;
    let ghost ms1 = pcb.inner.memory_set;
    assert(tid < isize::MAX);
    // make room for slot `tid`, keeping every other slot
    while pcb.inner.tasks.len() < tid + 1
        invariant
            tid < isize::MAX,
            pcb.inner.task_res_allocator == ra,
            pcb.inner.memory_set == ms1,
            pcb.inner.tasks@.len() == t0.len() || pcb.inner.tasks@.len() <= tid + 1,
            t0.len() <= pcb.inner.tasks@.len(),
            forall|j: int| 0 <= j < t0.len() ==> #[trigger] pcb.inner.tasks@[j] == t0[j],
            forall|j: int| t0.len() <= j < pcb.inner.tasks@.len() ==> #[trigger] pcb.inner.tasks@[j] is None,
        decreases tid + 1 - pcb.inner.tasks@.len(),
    {
        pcb.inner.tasks.push(None);
    }
    pcb.inner.tasks.set(tid, Some(new_task));
    processes.insert(me.pid, pcb);
    proof {
        assert(processes@.dom() =~= old(processes)@.dom());
        assert forall|r: int| mem.has(r) && !newly_allocated(*old(allocator), *allocator, r)
            implies #[trigger] mem.page(r) == old(mem).page(r) by {
            assert(r != trap_cx_ppn.0);
            assert(m1.page(r) == old(mem).page(r));
        }
    }
    tid as isize
}

} // verus!
