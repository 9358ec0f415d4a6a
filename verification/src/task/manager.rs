//! The ready queue and the table of processes.

use vstd::prelude::*;
use std::collections::{BTreeMap, VecDeque};
use super::pcb::ProcessControlBlock;
use super::tcb::{Status, TaskRef};

verus! {

broadcast use vstd::std_specs::btree::group_btree_axioms;

/// A first-in first-out queue of ready threads
pub struct Manager {
    ready_queue: VecDeque<TaskRef>,
}

impl Manager {
    /// The ready threads, first to run first.
    pub closed spec fn queue(&self) -> Seq<TaskRef> {
        self.ready_queue@
    }

    /// An empty queue
    pub fn new() -> (m: Self)
        ensures
            m.queue() == Seq::<TaskRef>::empty(),
    {
        Manager { ready_queue: VecDeque::new() }
    }

    /// Queue `task` last
    pub fn add(&mut self, task: TaskRef)
        ensures
            final(self).queue() == old(self).queue().push(task),
    {
        self.ready_queue.push_back(task);
    }

    /// Take the first thread of the queue, if any
    pub fn fetch(&mut self) -> (t: Option<TaskRef>)
        ensures
            old(self).queue().len() > 0 ==> {
                &&& t == Some(old(self).queue()[0])
                &&& final(self).queue() == old(self).queue().drop_first()
            },
            old(self).queue().len() == 0 ==> t == None::<TaskRef> && final(self).queue() == old(self).queue(),
    {
        self.ready_queue.pop_front()
    }
}

/// Add `task` to the ready queue
pub fn add(manager: &mut Manager, task: TaskRef)
    ensures
        final(manager).queue() == old(manager).queue().push(task),
{
    manager.add(task);
}

/// Take the next ready thread, if any
pub fn fetch(manager: &mut Manager) -> (t: Option<TaskRef>)
    ensures
        old(manager).queue().len() > 0 ==> {
            &&& t == Some(old(manager).queue()[0])
            &&& final(manager).queue() == old(manager).queue().drop_first()
        },
        old(manager).queue().len() == 0 ==> t == None::<TaskRef> && final(manager).queue() == old(manager).queue(),
{
    manager.fetch()
}

/// Whether `task` names an existing thread of `processes`.
pub open spec fn task_exists(processes: Map<usize, ProcessControlBlock>, task: TaskRef) -> bool {
    &&& processes.contains_key(task.pid)
    &&& task.tid < processes[task.pid].inner.tasks@.len()
    &&& processes[task.pid].inner.tasks@[task.tid as int] is Some
}

/// The state of thread `task`, which must exist.
pub open spec fn task_status(processes: Map<usize, ProcessControlBlock>, task: TaskRef) -> Status {
    processes[task.pid].inner.tasks@[task.tid as int]->0.inner.task_status
}

/// Set the state of thread `task`
pub fn set_task_status(processes: &mut BTreeMap<usize, ProcessControlBlock>, task: TaskRef, status: Status)
    requires
        task_exists(old(processes)@, task),
    ensures
        final(processes)@.dom() == old(processes)@.dom(),
        task_exists(final(processes)@, task),
        task_status(final(processes)@, task) == status,
        forall|t: TaskRef| #[trigger] task_exists(old(processes)@, t) ==> task_exists(final(processes)@, t),
        forall|p: usize| p != task.pid && #[trigger] old(processes)@.contains_key(p)
            ==> final(processes)@[p] == old(processes)@[p],
        final(processes)@[task.pid].pid == old(processes)@[task.pid].pid,
        final(processes)@[task.pid].inner.tasks@.len() == old(processes)@[task.pid].inner.tasks@.len(),
        forall|t: int| #![trigger final(processes)@[task.pid].inner.tasks@[t]]
            0 <= t < old(processes)@[task.pid].inner.tasks@.len() && t != task.tid
            ==> final(processes)@[task.pid].inner.tasks@[t] == old(processes)@[task.pid].inner.tasks@[t],
        final(processes)@[task.pid].inner.tasks@[task.tid as int] == Some(({
            let t = old(processes)@[task.pid].inner.tasks@[task.tid as int]->0;
            super::tcb::TaskControlBlock {
                inner: super::tcb::TaskControlBlockInner { task_status: status, ..t.inner },
                ..t
            }
        })),
        final(processes)@[task.pid] == (ProcessControlBlock {
            inner: super::pcb::ProcessControlBlockInner {
                tasks: final(processes)@[task.pid].inner.tasks,
                ..old(processes)@[task.pid].inner
            },
            ..old(processes)@[task.pid]
        }),
{
    let mut pcb = processes.remove(&task.pid).unwrap();
    let mut t = pcb.inner.tasks[task.tid].unwrap();
    t.inner.task_status = status;
    pcb.inner.tasks.set(task.tid, Some(t));
    processes.insert(task.pid, pcb);
    proof {
        assert forall|p: usize| p != task.pid && #[trigger] old(processes)@.contains_key(p)
            implies processes@[p] == old(processes)@[p] by {}
        assert(processes@.dom() =~= old(processes)@.dom());
    }
}

/// Whether `task` names an existing thread of `processes`
pub fn task_present(processes: &BTreeMap<usize, ProcessControlBlock>, task: TaskRef) -> (b: bool)
    ensures
        b == task_exists(processes@, task),
{
    match processes.get(&task.pid) {
        Some(p) => task.tid < p.inner.tasks.len() && p.inner.tasks[task.tid].is_some(),
        None => false,
    }
}

/// Mark thread `task` ready and queue it
pub fn wakeup(manager: &mut Manager, processes: &mut BTreeMap<usize, ProcessControlBlock>, task: TaskRef)
    requires
        task_exists(old(processes)@, task),
    ensures
        final(manager).queue() == old(manager).queue().push(task),
        final(processes)@.dom() == old(processes)@.dom(),
        task_exists(final(processes)@, task),
        task_status(final(processes)@, task) == Status::Ready,
        forall|t: TaskRef| #[trigger] task_exists(old(processes)@, t) ==> task_exists(final(processes)@, t),
        forall|p: usize| p != task.pid && #[trigger] old(processes)@.contains_key(p)
            ==> final(processes)@[p] == old(processes)@[p],
        final(processes)@[task.pid] == (ProcessControlBlock {
            inner: super::pcb::ProcessControlBlockInner {
                tasks: final(processes)@[task.pid].inner.tasks,
                ..old(processes)@[task.pid].inner
            },
            ..old(processes)@[task.pid]
        }),
{
    set_task_status(processes, task, Status::Ready);
    self::add(manager, task);
}

/// The process `pid`, if it is registered: a process stays registered from
/// its creation until it exits
pub fn pid2process(processes: &BTreeMap<usize, ProcessControlBlock>, pid: usize) -> (p: Option<&ProcessControlBlock>)
    ensures
        p == (if processes@.contains_key(pid) && !processes@[pid].inner.is_zombie {
            Some(&processes@[pid])
        } else {
            None::<&ProcessControlBlock>
        }),
{
    match processes.get(&pid) {
        Some(p) => if p.inner.is_zombie { None } else { Some(p) },
        None => None,
    }
}

/// Unregister process `pid`, which must be registered: it becomes a zombie,
/// kept until its parent reaps it
pub fn remove_from_pid2process(processes: &mut BTreeMap<usize, ProcessControlBlock>, pid: usize)
    requires
        old(processes)@.contains_key(pid),
        !old(processes)@[pid].inner.is_zombie,
    ensures
        final(processes)@.dom() == old(processes)@.dom(),
        final(processes)@[pid].inner.is_zombie,
        final(processes)@[pid].pid == old(processes)@[pid].pid,
        final(processes)@[pid].inner.exit_code == old(processes)@[pid].inner.exit_code,
        forall|p: usize| p != pid && #[trigger] old(processes)@.contains_key(p) ==> final(processes)@[p] == old(processes)@[p],
{
    let mut pcb = processes.remove(&pid).unwrap();
    pcb.inner.is_zombie = true;
    processes.insert(pid, pcb);
    assert(processes@.dom() =~= old(processes)@.dom());
}

/// Register `process` under `pid`
pub fn insert_into_pid2process(
    processes: &mut BTreeMap<usize, ProcessControlBlock>,
    pid: usize,
    process: ProcessControlBlock,
)
    ensures
        final(processes)@ == old(processes)@.insert(pid, process),
{
    processes.insert(pid, process);
}

/// The ready queue is first in, first out: fetching right after adding
/// `task` gives the thread that was first in the queue, or `task` when the
/// queue was empty, and leaves the rest of the queue with `task` at its end.
pub proof fn lemma_add_then_fetch(m0: Manager, m1: Manager, m2: Manager, task: TaskRef, r: Option<TaskRef>)
    requires
        m1.queue() == m0.queue().push(task),
        m1.queue().len() > 0 ==> r == Some(m1.queue()[0]) && m2.queue() == m1.queue().drop_first(),
    ensures
        m0.queue().len() == 0 ==> r == Some(task) && m2.queue() == m0.queue(),
        m0.queue().len() > 0 ==> r == Some(m0.queue()[0]) && m2.queue() == m0.queue().drop_first().push(task),
{
    if m0.queue().len() == 0 {
        assert(m0.queue().push(task).drop_first() =~= m0.queue());
    } else {
        assert(m0.queue().push(task).drop_first() =~= m0.queue().drop_first().push(task));
    }
}

} // verus!
