//! Counting semaphores.

use vstd::prelude::*;
use std::collections::VecDeque;
use crate::task::tcb::TaskRef;

verus! {

/// The state of a semaphore: the count, negative when threads wait, and the
/// waiting threads
pub struct Inner {
    pub count: isize,
    pub wait_queue: VecDeque<TaskRef>,
}

/// A counting semaphore
pub struct Semaphore {
    pub inner: Inner,
}

impl Semaphore {
    /// As many threads wait as the count is below zero.
    pub open spec fn balanced(&self) -> bool {
        self.inner.wait_queue@.len() == (if self.inner.count < 0 { -self.inner.count } else { 0 })
    }

    /// A semaphore with `res_count` resources and nobody waiting
    pub fn new(res_count: usize) -> (s: Self)
        ensures
            s.inner.count == res_count as isize,
            s.inner.wait_queue@ == Seq::<TaskRef>::empty(),
            res_count <= isize::MAX ==> s.balanced(),
    {
        Semaphore { inner: Inner { count: res_count as isize, wait_queue: VecDeque::new() } }
    }

    /// Give a resource back; if threads were waiting, the one queued last is
    /// returned to be woken. A semaphore lives in the process it belongs
    /// to, so the wake itself, marking the thread ready and queueing it,
    /// is done once the semaphore is back in place, by
    /// [`crate::syscall::sync::semaphore_up`]
    pub fn up(&mut self) -> (woken: Option<TaskRef>)
        requires
            old(self).inner.count < isize::MAX,
        ensures
            final(self).inner.count == old(self).inner.count + 1,
            final(self).inner.count <= 0 && old(self).inner.wait_queue@.len() > 0 ==> {
                &&& woken == Some(old(self).inner.wait_queue@.last())
                &&& final(self).inner.wait_queue@ == old(self).inner.wait_queue@.drop_last()
            },
            !(final(self).inner.count <= 0 && old(self).inner.wait_queue@.len() > 0) ==> {
                &&& woken == None::<TaskRef>
                &&& final(self).inner.wait_queue@ == old(self).inner.wait_queue@
            },
            old(self).balanced() ==> final(self).balanced(),
    {
        self.inner.count = self.inner.count + 1;
        if self.inner.count <= 0 {
            match self.inner.wait_queue.pop_back() {
                Some(task) => Some(task),
                None => None,
            }
        } else {
            None
        }
    }

    /// Take a resource for `current`; `true` when none is left and `current`
    /// was queued and must block, which
    /// [`crate::syscall::sync::semaphore_down`] then does
    pub fn down(&mut self, current: TaskRef) -> (blocked: bool)
        requires
            old(self).inner.count > isize::MIN,
        ensures
            final(self).inner.count == old(self).inner.count - 1,
            blocked == (final(self).inner.count < 0),
            blocked ==> final(self).inner.wait_queue@ == old(self).inner.wait_queue@.push(current),
            !blocked ==> final(self).inner.wait_queue@ == old(self).inner.wait_queue@,
            old(self).balanced() ==> final(self).balanced(),
    {
        self.inner.count = self.inner.count - 1;
        if self.inner.count < 0 {
            self.inner.wait_queue.push_back(current);
            true
        } else {
            false
        }
    }
}

} // verus!
