//! Condition variables.

use vstd::prelude::*;
use std::collections::VecDeque;
use crate::task::tcb::TaskRef;
use super::mutex::Mutex;

verus! {

/// The threads waiting on a condition variable, first come first
pub struct Inner {
    pub wait_queue: VecDeque<TaskRef>,
}

/// A condition variable
pub struct Condvar {
    pub inner: Inner,
}

impl Condvar {
    /// A condition variable nobody waits on
    pub fn new() -> (c: Self)
        ensures
            c.inner.wait_queue@ == Seq::<TaskRef>::empty(),
    {
        Condvar { inner: Inner { wait_queue: VecDeque::new() } }
    }

    /// Take the thread that has waited longest, if any, off the queue, to
    /// be woken; [`crate::syscall::sync::condvar_signal`] wakes it once the
    /// variable is back in its process
    pub fn signal(&mut self) -> (woken: Option<TaskRef>)
        ensures
            old(self).inner.wait_queue@.len() > 0 ==> {
                &&& woken == Some(old(self).inner.wait_queue@[0])
                &&& final(self).inner.wait_queue@ == old(self).inner.wait_queue@.drop_first()
            },
            old(self).inner.wait_queue@.len() == 0 ==> {
                &&& woken == None::<TaskRef>
                &&& final(self).inner.wait_queue@ == old(self).inner.wait_queue@
            },
    {
        match self.inner.wait_queue.pop_front() {
            Some(task) => Some(task),
            None => None,
        }
    }

    /// Release `mutex` and queue `current`, which must then block and, once
    /// woken, lock `mutex` again (see [`crate::syscall::sync::condvar_wait`]
    /// and [`crate::syscall::sync::mutex_lock`]); the thread returned, if
    /// any, is the one the unlock handed the mutex to (see
    /// [`Mutex::next_holder`]) and must be woken
    pub fn wait<M: Mutex>(&mut self, mutex: &mut M, current: TaskRef) -> (woken: Option<TaskRef>)
        requires
            old(mutex).may_unlock(),
        ensures
            final(self).inner.wait_queue@ == old(self).inner.wait_queue@.push(current),
            final(mutex).is_locked() == woken.is_some(),
            woken == old(mutex).next_holder(),
    {
        let woken = mutex.unlock();
        self.inner.wait_queue.push_back(current);
        woken
    }
}

} // verus!
