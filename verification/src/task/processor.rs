//! The processor: which thread runs now.

use vstd::prelude::*;
use std::collections::BTreeMap;
use crate::mm::address::{PhysPageNum, PAGE_SIZE};
use super::manager::{task_exists, task_status, Manager};
use super::pcb::ProcessControlBlock;
use super::tcb::{Status, TaskRef, TRAP_CONTEXT_BASE};

verus! {

broadcast use vstd::std_specs::btree::group_btree_axioms;

/// The processor and the thread it runs, if any
pub struct Processor {
    current: Option<TaskRef>,
}

impl Processor {
    /// The running thread.
    pub closed spec fn running(&self) -> Option<TaskRef> {
        self.current
    }

    /// A processor running nothing
    pub fn new() -> (p: Self)
        ensures
            p.running() == None::<TaskRef>,
    {
        Processor { current: None }
    }

    /// Take the running thread away from the processor
    pub fn take_current(&mut self) -> (t: Option<TaskRef>)
        ensures
            t == old(self).running(),
            final(self).running() == None::<TaskRef>,
    {
        let t = self.current;
        self.current = None;
        t
    }

    /// The running thread
    pub fn current(&self) -> (t: Option<TaskRef>)
        ensures
            t == self.running(),
    {
        self.current
    }

    /// Run `task` from now on
    pub fn set_current(&mut self, task: TaskRef)
        ensures
            final(self).running() == Some(task),
    {
        self.current = Some(task);
    }
}

/// Take the running thread away from the processor
pub fn take_current_tcb(processor: &mut Processor) -> (t: Option<TaskRef>)
    ensures
        t == old(processor).running(),
        final(processor).running() == None::<TaskRef>,
{
    processor.take_current()
}

/// The running thread
pub fn current_tcb(processor: &Processor) -> (t: Option<TaskRef>)
    ensures
        t == processor.running(),
{
    processor.current()
}

/// The process of the running thread, of which there must be one
pub fn current_pcb(processor: &Processor) -> (pid: usize)
    requires
        processor.running() is Some,
    ensures
        pid == processor.running()->0.pid,
{
    processor.current().unwrap().pid
}

/// The `satp` value of the running thread's address space
pub fn current_user_token(processor: &Processor, processes: &BTreeMap<usize, ProcessControlBlock>) -> (t: usize)
    requires
        processor.running() is Some,
        processes@.contains_key(processor.running()->0.pid),
        processes@[processor.running()->0.pid].inner.memory_set.pt().root() < 0x1000_0000_0000,
    ensures
        usize::BITS == 64 ==> t as int == 0x8000_0000_0000_0000int
            + processes@[processor.running()->0.pid].inner.memory_set.pt().root(),
{
    let task = processor.current().unwrap();
    let process = processes.get(&task.pid).unwrap();
    process.inner.memory_set.token()
}

/// The physical page of the running thread's trap context
pub fn current_trap_cx(processor: &Processor, processes: &BTreeMap<usize, ProcessControlBlock>) -> (p: PhysPageNum)
    requires
        processor.running() is Some,
        task_exists(processes@, processor.running()->0),
    ensures
        p == processes@[processor.running()->0.pid].inner.tasks@[processor.running()->0.tid as int]->0.inner.trap_cx_ppn,
{
    let task = processor.current().unwrap();
    let process = processes.get(&task.pid).unwrap();
    process.inner.task(task.tid).inner.trap_cx()
}

/// The virtual address of the running thread's trap context
pub fn current_trap_cx_user_va(processor: &Processor, processes: &BTreeMap<usize, ProcessControlBlock>) -> (va: usize)
    requires
        processor.running() is Some,
        task_exists(processes@, processor.running()->0),
        processes@[processor.running()->0.pid].inner.tasks@[processor.running()->0.tid as int]->0.inner.res is Some,
        processes@[processor.running()->0.pid].inner.tasks@[processor.running()->0.tid as int]->0.inner.res->0.tid
            * PAGE_SIZE <= TRAP_CONTEXT_BASE,
    ensures
        va == TRAP_CONTEXT_BASE - processes@[processor.running()->0.pid].inner.tasks@[processor.running()->0.tid as int]->0.inner.res->0.tid
            * PAGE_SIZE,
{
    let task = processor.current().unwrap();
    let process = processes.get(&task.pid).unwrap();
    process.inner.task(task.tid).inner.res.unwrap().trap_cx_user_va()
}

/// One round of the scheduler: take the first ready thread, if any, mark it
/// running and make it the processor's current thread; the caller then
/// switches to it
pub fn run_next(
    processor: &mut Processor,
    manager: &mut Manager,
    processes: &mut BTreeMap<usize, ProcessControlBlock>,
) -> (t: Option<TaskRef>)
    requires
        old(manager).queue().len() > 0 ==> task_exists(old(processes)@, old(manager).queue()[0]),
    ensures
        old(manager).queue().len() == 0 ==> {
            &&& t == None::<TaskRef>
            &&& final(manager).queue() == old(manager).queue()
            &&& final(processor).running() == old(processor).running()
            &&& final(processes)@ == old(processes)@
        },
        old(manager).queue().len() > 0 ==> {
            let task = old(manager).queue()[0];
            &&& t == Some(task)
            &&& final(manager).queue() == old(manager).queue().drop_first()
            &&& final(processor).running() == Some(task)
            &&& final(processes)@.dom() == old(processes)@.dom()
            &&& task_exists(final(processes)@, task)
            &&& task_status(final(processes)@, task) == Status::Running
            &&& forall|p: usize| p != task.pid && #[trigger] old(processes)@.contains_key(p)
                ==> final(processes)@[p] == old(processes)@[p]
        },
{
    match super::manager::fetch(manager) {
        Some(task) => {
            super::manager::set_task_status(processes, task, Status::Running);
            processor.set_current(task);
            Some(task)
        },
        None => None,
    }
}

} // verus!
