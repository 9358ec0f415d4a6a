//! Mutexes.

use vstd::prelude::*;
use std::collections::VecDeque;
use crate::task::tcb::TaskRef;

verus! {

/// What a thread trying to lock a mutex must do next
#[derive(Clone, Copy, Debug, PartialEq, Eq, Structural)]
pub enum LockOutcome {
    /// It holds the mutex now
    Acquired,
    /// The mutex is held: yield, then try again
    Retry,
    /// The mutex is held: block until the holder hands it over
    Blocked,
}

/// A mutex
pub trait Mutex {
    /// Whether the mutex is held.
    spec fn is_locked(&self) -> bool;

    /// Whether the mutex may be unlocked now.
    spec fn may_unlock(&self) -> bool;

    /// The thread an unlock hands the mutex to, if any.
    spec fn next_holder(&self) -> Option<TaskRef>;

    /// Try to take the mutex for thread `current`
    fn lock(&mut self, current: TaskRef) -> (r: LockOutcome)
        ensures
            (r == LockOutcome::Acquired) == !old(self).is_locked(),
            final(self).is_locked(),
    ;

    /// Release the mutex; the thread returned, if any, now holds it and must
    /// be woken
    fn unlock(&mut self) -> (woken: Option<TaskRef>)
        requires
            old(self).may_unlock(),
        ensures
            final(self).is_locked() == woken.is_some(),
            woken == old(self).next_holder(),
    ;
}

/// A mutex that makes a waiting thread yield and retry
pub struct MutexSpin {
    locked: bool,
}

impl MutexSpin {
    /// An unlocked mutex
    pub fn new() -> (m: Self)
        ensures
            !m.is_locked(),
    {
        MutexSpin { locked: false }
    }
}

impl Mutex for MutexSpin {
    closed spec fn is_locked(&self) -> bool {
        self.locked
    }

    open spec fn may_unlock(&self) -> bool {
        true
    }

    open spec fn next_holder(&self) -> Option<TaskRef> {
        None
    }

    /// Take the mutex if it is free, else ask the caller to yield and retry
    fn lock(&mut self, current: TaskRef) -> (r: LockOutcome)
        ensures
            r == (if old(self).is_locked() { LockOutcome::Retry } else { LockOutcome::Acquired }),
    {
        if self.locked {
            LockOutcome::Retry
        } else {
            self.locked = true;
            LockOutcome::Acquired
        }
    }

    /// Release the mutex
    fn unlock(&mut self) -> (woken: Option<TaskRef>)
        ensures
            woken == None::<TaskRef>,
    {
        self.locked = false;
        None
    }
}

/// The state of a blocking mutex: whether it is held and who waits for it,
/// first come first
pub struct MutexBlockingInner {
    pub locked: bool,
    pub wait_queue: VecDeque<TaskRef>,
}

/// A mutex that blocks a waiting thread until the holder hands it over
pub struct MutexBlocking {
    pub inner: MutexBlockingInner,
}

impl MutexBlocking {
    /// Nobody waits for a free mutex.
    pub open spec fn consistent(&self) -> bool {
        !self.inner.locked ==> self.inner.wait_queue@.len() == 0
    }

    /// An unlocked mutex nobody waits for
    pub fn new() -> (m: Self)
        ensures
            !m.inner.locked,
            m.inner.wait_queue@ == Seq::<TaskRef>::empty(),
            m.consistent(),
    {
        MutexBlocking { inner: MutexBlockingInner { locked: false, wait_queue: VecDeque::new() } }
    }
}

impl Mutex for MutexBlocking {
    open spec fn is_locked(&self) -> bool {
        self.inner.locked
    }

    open spec fn may_unlock(&self) -> bool {
        self.inner.locked
    }

    /// The thread that has waited longest.
    open spec fn next_holder(&self) -> Option<TaskRef> {
        if self.inner.wait_queue@.len() > 0 { Some(self.inner.wait_queue@[0]) } else { None }
    }

    /// Take the mutex if it is free, else queue `current` to be blocked
    fn lock(&mut self, current: TaskRef) -> (r: LockOutcome)
        ensures
            old(self).inner.locked ==> {
                &&& r == LockOutcome::Blocked
                &&& final(self).inner.wait_queue@ == old(self).inner.wait_queue@.push(current)
            },
            !old(self).inner.locked ==> {
                &&& r == LockOutcome::Acquired
                &&& final(self).inner.wait_queue@ == old(self).inner.wait_queue@
            },
            old(self).consistent() ==> final(self).consistent(),
    {
        if self.inner.locked {
            self.inner.wait_queue.push_back(current);
            LockOutcome::Blocked
        } else {
            self.inner.locked = true;
            LockOutcome::Acquired
        }
    }

    /// Hand the mutex to the first waiter, or release it if nobody waits
    fn unlock(&mut self) -> (woken: Option<TaskRef>)
        ensures
            old(self).inner.wait_queue@.len() > 0 ==> {
                &&& woken == Some(old(self).inner.wait_queue@[0])
                &&& final(self).inner.wait_queue@ == old(self).inner.wait_queue@.drop_first()
            },
            old(self).inner.wait_queue@.len() == 0 ==> {
                &&& woken == None::<TaskRef>
                &&& final(self).inner.wait_queue@ == old(self).inner.wait_queue@
            },
            old(self).consistent() ==> final(self).consistent(),
    {
        match self.inner.wait_queue.pop_front() {
            Some(task) => Some(task),
            None => {
                self.inner.locked = false;
                None
            },
        }
    }
}

/// A mutex of either kind
pub enum AnyMutex {
    Spin(MutexSpin),
    Blocking(MutexBlocking),
}

impl Mutex for AnyMutex {
    open spec fn is_locked(&self) -> bool {
        match self {
            AnyMutex::Spin(m) => m.is_locked(),
            AnyMutex::Blocking(m) => m.is_locked(),
        }
    }

    open spec fn may_unlock(&self) -> bool {
        match self {
            AnyMutex::Spin(m) => m.may_unlock(),
            AnyMutex::Blocking(m) => m.may_unlock(),
        }
    }

    open spec fn next_holder(&self) -> Option<TaskRef> {
        match self {
            AnyMutex::Spin(m) => m.next_holder(),
            AnyMutex::Blocking(m) => m.next_holder(),
        }
    }

    /// Lock the mutex of whichever kind
    fn lock(&mut self, current: TaskRef) -> (r: LockOutcome)
        ensures
            *old(self) is Spin ==> *final(self) is Spin,
            *old(self) is Blocking ==> *final(self) is Blocking,
            r == LockOutcome::Retry ==> *old(self) is Spin,
            r == LockOutcome::Blocked ==> *old(self) is Blocking,
    {
        match self {
            AnyMutex::Spin(m) => m.lock(current),
            AnyMutex::Blocking(m) => m.lock(current),
        }
    }

    /// Unlock the mutex of whichever kind
    fn unlock(&mut self) -> (woken: Option<TaskRef>)
        ensures
            *old(self) is Spin ==> *final(self) is Spin && woken.is_none(),
            *old(self) is Blocking ==> *final(self) is Blocking,
    {
        match self {
            AnyMutex::Spin(m) => m.unlock(),
            AnyMutex::Blocking(m) => m.unlock(),
        }
    }
}

/// A blocking mutex hands itself over in the order the threads blocked: when
/// `task` blocks on a held mutex and the holder then unlocks it, the first
/// thread that was waiting gets it, or `task` when none was; the mutex stays
/// held and the rest keep waiting, `task` last.
pub proof fn lemma_block_then_unlock(
    m0: MutexBlocking,
    m1: MutexBlocking,
    m2: MutexBlocking,
    task: TaskRef,
    r: LockOutcome,
    woken: Option<TaskRef>,
)
    requires
        m0.inner.locked,
        r == LockOutcome::Blocked,
        m1.inner.wait_queue@ == m0.inner.wait_queue@.push(task),
        m1.inner.wait_queue@.len() > 0 ==> {
            &&& woken == Some(m1.inner.wait_queue@[0])
            &&& m2.inner.wait_queue@ == m1.inner.wait_queue@.drop_first()
        },
        m2.is_locked() == woken.is_some(),
    ensures
        m2.inner.locked,
        m0.inner.wait_queue@.len() == 0 ==> woken == Some(task) && m2.inner.wait_queue@ == Seq::<TaskRef>::empty(),
        m0.inner.wait_queue@.len() > 0 ==> woken == Some(m0.inner.wait_queue@[0])
            && m2.inner.wait_queue@ == m0.inner.wait_queue@.drop_first().push(task),
{
    if m0.inner.wait_queue@.len() == 0 {
        assert(m0.inner.wait_queue@.push(task).drop_first() =~= Seq::<TaskRef>::empty());
    } else {
        assert(m0.inner.wait_queue@.push(task).drop_first() =~= m0.inner.wait_queue@.drop_first().push(task));
    }
}

} // verus!
