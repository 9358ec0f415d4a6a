//! System calls on mutexes, semaphores and condition variables, and sleeping.

use vstd::prelude::*;
use std::collections::BTreeMap;
use crate::sync::condvar::Condvar;
use crate::sync::mutex::{AnyMutex, LockOutcome, Mutex, MutexBlocking, MutexSpin};
use crate::sync::semaphore::Semaphore;
use crate::task::manager::{task_exists, task_present, task_status, wakeup, Manager};
use crate::task::pcb::{position_none, ProcessControlBlock, ProcessControlBlockInner};
use crate::task::processor::Processor;
use crate::task::tcb::{Status, TaskRef};
use crate::timer::{sorted, CondVar};

verus! {

/// Take the item out of slot `i`
fn take_slot<T>(v: &mut Vec<Option<T>>, i: usize) -> (x: Option<T>)
    requires
        i < old(v)@.len(),
    ensures
        x == old(v)@[i as int],
        final(v)@ == old(v)@.update(i as int, None),
{
    let mut tmp: Option<T> = None;
    v.set_and_swap(i, &mut tmp);
    tmp
}

/// Put `x` in slot `i`
fn put_slot<T>(v: &mut Vec<Option<T>>, i: usize, x: Option<T>)
    requires
        i < old(v)@.len(),
    ensures
        final(v)@ == old(v)@.update(i as int, x),
{
    let mut tmp = x;
    v.set_and_swap(i, &mut tmp);
}

/// Store `item` in the lowest empty slot, or in a new slot at the end, and
/// return the slot's index
fn alloc_slot<T>(v: &mut Vec<Option<T>>, item: T) -> (i: usize)
    requires
        old(v)@.len() < usize::MAX,
    ensures
        i <= old(v)@.len(),
        forall|j: int| 0 <= j < i ==> #[trigger] old(v)@[j] is Some,
        i < old(v)@.len() ==> old(v)@[i as int] is None && final(v)@ == old(v)@.update(i as int, Some(item)),
        i == old(v)@.len() ==> final(v)@ == old(v)@.push(Some(item)),
{
    match position_none(v) {
        Some(idx) => {
            put_slot(v, idx, Some(item));
            idx
        },
        None => {
            v.push(Some(item));
            v.len() - 1
        },
    }
}

/// Create a mutex, blocking or spinning, in the lowest free slot of the
/// process's mutexes, and return the slot
pub fn sys_mutex_create(inner: &mut ProcessControlBlockInner, blocking: bool) -> (r: isize)
    requires
        old(inner).mutex_list@.len() < isize::MAX,
    ensures
        0 <= r <= old(inner).mutex_list@.len(),
        forall|j: int| 0 <= j < r ==> #[trigger] old(inner).mutex_list@[j] is Some,
        r < old(inner).mutex_list@.len() ==> old(inner).mutex_list@[r as int] is None,
        final(inner).mutex_list@.len() == if r < old(inner).mutex_list@.len() {
            old(inner).mutex_list@.len() as int
        } else {
            old(inner).mutex_list@.len() + 1int
        },
        forall|j: int| 0 <= j < old(inner).mutex_list@.len() && j != r
            ==> #[trigger] final(inner).mutex_list@[j] == old(inner).mutex_list@[j],
        final(inner).mutex_list@[r as int] matches Some(m) && !m.is_locked()
            && (if blocking { m is Blocking } else { m is Spin }),
        final(inner).fd_table@ == old(inner).fd_table@,
{
    let mutex = if blocking {
        AnyMutex::Blocking(MutexBlocking::new())
    } else {
        AnyMutex::Spin(MutexSpin::new())
    };
    let i = alloc_slot(&mut inner.mutex_list, mutex);
    i as isize
}

/// Lock mutex `mutex_id` for thread `current`: what the thread must do next,
/// or nothing, and the call returns -1, when there is no such mutex
pub fn sys_mutex_lock(inner: &mut ProcessControlBlockInner, mutex_id: usize, current: TaskRef) -> (r: Option<LockOutcome>)
    ensures
        !(mutex_id < old(inner).mutex_list@.len() && old(inner).mutex_list@[mutex_id as int] is Some) ==> {
            &&& r == None::<LockOutcome>
            &&& final(inner).mutex_list@ == old(inner).mutex_list@
        },
        mutex_id < old(inner).mutex_list@.len() && old(inner).mutex_list@[mutex_id as int] is Some ==> {
            let m0 = old(inner).mutex_list@[mutex_id as int]->0;
            &&& r is Some
            &&& (r == Some(LockOutcome::Acquired)) == !m0.is_locked()
            &&& r == Some(LockOutcome::Retry) ==> m0 is Spin
            &&& r == Some(LockOutcome::Blocked) ==> m0 is Blocking
            &&& final(inner).mutex_list@.len() == old(inner).mutex_list@.len()
            &&& final(inner).mutex_list@[mutex_id as int] matches Some(m1) && m1.is_locked()
            &&& forall|j: int| 0 <= j < old(inner).mutex_list@.len() && j != mutex_id
                ==> #[trigger] final(inner).mutex_list@[j] == old(inner).mutex_list@[j]
        },
        r is None ==> *final(inner) == *old(inner),
        *final(inner) == (ProcessControlBlockInner { mutex_list: final(inner).mutex_list, ..*old(inner) }),
        final(inner).fd_table@ == old(inner).fd_table@,
{
    if mutex_id >= inner.mutex_list.len() {
        return None;
    }
    if inner.mutex_list[mutex_id].is_none() {
        return None;
    }
    match take_slot(&mut inner.mutex_list, mutex_id) {
        Some(mut m) => {
            let outcome = m.lock(current);
            put_slot(&mut inner.mutex_list, mutex_id, Some(m));
            Some(outcome)
        },
        None => {
            put_slot(&mut inner.mutex_list, mutex_id, None);
            assert(inner.mutex_list@ =~= old(inner).mutex_list@);
            None
        },
    }
}

/// Unlock mutex `mutex_id`: the thread that was handed the mutex and must be
/// woken, if any; nothing, and the call returns -1, when there is no such
/// mutex
pub fn sys_mutex_unlock(inner: &mut ProcessControlBlockInner, mutex_id: usize) -> (r: Option<Option<TaskRef>>)
    requires
        mutex_id < old(inner).mutex_list@.len() && old(inner).mutex_list@[mutex_id as int] is Some
            ==> old(inner).mutex_list@[mutex_id as int]->0.may_unlock(),
    ensures
        !(mutex_id < old(inner).mutex_list@.len() && old(inner).mutex_list@[mutex_id as int] is Some) ==> {
            &&& r == None::<Option<TaskRef>>
            &&& final(inner).mutex_list@ == old(inner).mutex_list@
        },
        mutex_id < old(inner).mutex_list@.len() && old(inner).mutex_list@[mutex_id as int] is Some ==> {
            &&& r matches Some(woken) && final(inner).mutex_list@[mutex_id as int] matches Some(m1)
                && m1.is_locked() == woken.is_some()
            &&& r matches Some(woken) && woken == old(inner).mutex_list@[mutex_id as int]->0.next_holder()
            &&& final(inner).mutex_list@.len() == old(inner).mutex_list@.len()
            &&& forall|j: int| 0 <= j < old(inner).mutex_list@.len() && j != mutex_id
                ==> #[trigger] final(inner).mutex_list@[j] == old(inner).mutex_list@[j]
        },
        r is None ==> *final(inner) == *old(inner),
        *final(inner) == (ProcessControlBlockInner { mutex_list: final(inner).mutex_list, ..*old(inner) }),
        final(inner).fd_table@ == old(inner).fd_table@,
{
    if mutex_id >= inner.mutex_list.len() {
        return None;
    }
    if inner.mutex_list[mutex_id].is_none() {
        return None;
    }
    match take_slot(&mut inner.mutex_list, mutex_id) {
        Some(mut m) => {
            let woken = m.unlock();
            put_slot(&mut inner.mutex_list, mutex_id, Some(m));
            Some(woken)
        },
        None => {
            put_slot(&mut inner.mutex_list, mutex_id, None);
            assert(inner.mutex_list@ =~= old(inner).mutex_list@);
            None
        },
    }
}

/// Create a semaphore with `res_count` resources in the lowest free slot of
/// the process's semaphores, and return the slot
pub fn sys_semaphore_create(inner: &mut ProcessControlBlockInner, res_count: usize) -> (r: isize)
    requires
        old(inner).semaphore_list@.len() < isize::MAX,
    ensures
        0 <= r <= old(inner).semaphore_list@.len(),
        forall|j: int| 0 <= j < r ==> #[trigger] old(inner).semaphore_list@[j] is Some,
        r < old(inner).semaphore_list@.len() ==> old(inner).semaphore_list@[r as int] is None,
        forall|j: int| 0 <= j < old(inner).semaphore_list@.len() && j != r
            ==> #[trigger] final(inner).semaphore_list@[j] == old(inner).semaphore_list@[j],
        final(inner).semaphore_list@[r as int] matches Some(s) && s.inner.count == res_count as isize
            && s.inner.wait_queue@ == Seq::<TaskRef>::empty(),
        final(inner).fd_table@ == old(inner).fd_table@,
{
    let i = alloc_slot(&mut inner.semaphore_list, Semaphore::new(res_count));
    i as isize
}

/// Give back a resource of semaphore `sem_id`: the thread to wake, if any;
/// nothing, and the call returns -1, when there is no such semaphore
pub fn sys_semaphore_up(inner: &mut ProcessControlBlockInner, sem_id: usize) -> (r: Option<Option<TaskRef>>)
    requires
        sem_id < old(inner).semaphore_list@.len() && old(inner).semaphore_list@[sem_id as int] is Some
            ==> old(inner).semaphore_list@[sem_id as int]->0.inner.count < isize::MAX,
    ensures
        !(sem_id < old(inner).semaphore_list@.len() && old(inner).semaphore_list@[sem_id as int] is Some) ==> {
            &&& r == None::<Option<TaskRef>>
            &&& final(inner).semaphore_list@ == old(inner).semaphore_list@
        },
        sem_id < old(inner).semaphore_list@.len() && old(inner).semaphore_list@[sem_id as int] is Some ==> {
            let s0 = old(inner).semaphore_list@[sem_id as int]->0;
            &&& r is Some
            &&& final(inner).semaphore_list@[sem_id as int] matches Some(s1) && s1.inner.count == s0.inner.count + 1
                && (s1.inner.count <= 0 && s0.inner.wait_queue@.len() > 0 ==> r == Some(Some(s0.inner.wait_queue@.last()))
                    && s1.inner.wait_queue@ == s0.inner.wait_queue@.drop_last())
                && (!(s1.inner.count <= 0 && s0.inner.wait_queue@.len() > 0) ==> r == Some(None::<TaskRef>)
                    && s1.inner.wait_queue@ == s0.inner.wait_queue@)
            &&& final(inner).semaphore_list@.len() == old(inner).semaphore_list@.len()
            &&& forall|j: int| 0 <= j < old(inner).semaphore_list@.len() && j != sem_id
                ==> #[trigger] final(inner).semaphore_list@[j] == old(inner).semaphore_list@[j]
        },
        r is None ==> *final(inner) == *old(inner),
        *final(inner) == (ProcessControlBlockInner { semaphore_list: final(inner).semaphore_list, ..*old(inner) }),
        final(inner).fd_table@ == old(inner).fd_table@,
{
    if sem_id >= inner.semaphore_list.len() {
        return None;
    }
    if inner.semaphore_list[sem_id].is_none() {
        return None;
    }
    match take_slot(&mut inner.semaphore_list, sem_id) {
        Some(mut s) => {
            let woken = s.up();
            put_slot(&mut inner.semaphore_list, sem_id, Some(s));
            Some(woken)
        },
        None => {
            put_slot(&mut inner.semaphore_list, sem_id, None);
            assert(inner.semaphore_list@ =~= old(inner).semaphore_list@);
            None
        },
    }
}

/// Take a resource of semaphore `sem_id` for thread `current`: whether it
/// must block; nothing, and the call returns -1, when there is no such
/// semaphore
pub fn sys_semaphore_down(inner: &mut ProcessControlBlockInner, sem_id: usize, current: TaskRef) -> (r: Option<bool>)
    requires
        sem_id < old(inner).semaphore_list@.len() && old(inner).semaphore_list@[sem_id as int] is Some
            ==> old(inner).semaphore_list@[sem_id as int]->0.inner.count > isize::MIN,
    ensures
        !(sem_id < old(inner).semaphore_list@.len() && old(inner).semaphore_list@[sem_id as int] is Some) ==> {
            &&& r == None::<bool>
            &&& final(inner).semaphore_list@ == old(inner).semaphore_list@
        },
        sem_id < old(inner).semaphore_list@.len() && old(inner).semaphore_list@[sem_id as int] is Some ==> {
            let s0 = old(inner).semaphore_list@[sem_id as int]->0;
            &&& final(inner).semaphore_list@[sem_id as int] matches Some(s1) && s1.inner.count == s0.inner.count - 1
                && r == Some(s1.inner.count < 0)
                && (s1.inner.count < 0 ==> s1.inner.wait_queue@ == s0.inner.wait_queue@.push(current))
                && (s1.inner.count >= 0 ==> s1.inner.wait_queue@ == s0.inner.wait_queue@)
            &&& final(inner).semaphore_list@.len() == old(inner).semaphore_list@.len()
            &&& forall|j: int| 0 <= j < old(inner).semaphore_list@.len() && j != sem_id
                ==> #[trigger] final(inner).semaphore_list@[j] == old(inner).semaphore_list@[j]
        },
        r is None ==> *final(inner) == *old(inner),
        *final(inner) == (ProcessControlBlockInner { semaphore_list: final(inner).semaphore_list, ..*old(inner) }),
        final(inner).fd_table@ == old(inner).fd_table@,
{
    if sem_id >= inner.semaphore_list.len() {
        return None;
    }
    if inner.semaphore_list[sem_id].is_none() {
        return None;
    }
    match take_slot(&mut inner.semaphore_list, sem_id) {
        Some(mut s) => {
            let blocked = s.down(current);
            put_slot(&mut inner.semaphore_list, sem_id, Some(s));
            Some(blocked)
        },
        None => {
            put_slot(&mut inner.semaphore_list, sem_id, None);
            assert(inner.semaphore_list@ =~= old(inner).semaphore_list@);
            None
        },
    }
}

/// Create a condition variable in the lowest free slot of the process's
/// condition variables, and return the slot
pub fn sys_condvar_create(inner: &mut ProcessControlBlockInner) -> (r: isize)
    requires
        old(inner).condvar_list@.len() < isize::MAX,
    ensures
        0 <= r <= old(inner).condvar_list@.len(),
        forall|j: int| 0 <= j < r ==> #[trigger] old(inner).condvar_list@[j] is Some,
        r < old(inner).condvar_list@.len() ==> old(inner).condvar_list@[r as int] is None,
        forall|j: int| 0 <= j < old(inner).condvar_list@.len() && j != r
            ==> #[trigger] final(inner).condvar_list@[j] == old(inner).condvar_list@[j],
        final(inner).condvar_list@[r as int] matches Some(c) && c.inner.wait_queue@ == Seq::<TaskRef>::empty(),
        final(inner).fd_table@ == old(inner).fd_table@,
{
    let i = alloc_slot(&mut inner.condvar_list, Condvar::new());
    i as isize
}

/// Signal condition variable `condvar_id`: the thread to wake, if any;
/// nothing, and the call returns -1, when there is no such variable
pub fn sys_condvar_signal(inner: &mut ProcessControlBlockInner, condvar_id: usize) -> (r: Option<Option<TaskRef>>)
    ensures
        !(condvar_id < old(inner).condvar_list@.len() && old(inner).condvar_list@[condvar_id as int] is Some) ==> {
            &&& r == None::<Option<TaskRef>>
            &&& final(inner).condvar_list@ == old(inner).condvar_list@
        },
        condvar_id < old(inner).condvar_list@.len() && old(inner).condvar_list@[condvar_id as int] is Some ==> {
            let c0 = old(inner).condvar_list@[condvar_id as int]->0;
            &&& final(inner).condvar_list@[condvar_id as int] matches Some(c1)
                && (c0.inner.wait_queue@.len() > 0 ==> r == Some(Some(c0.inner.wait_queue@[0]))
                    && c1.inner.wait_queue@ == c0.inner.wait_queue@.drop_first())
                && (c0.inner.wait_queue@.len() == 0 ==> r == Some(None::<TaskRef>)
                    && c1.inner.wait_queue@ == c0.inner.wait_queue@)
            &&& final(inner).condvar_list@.len() == old(inner).condvar_list@.len()
            &&& forall|j: int| 0 <= j < old(inner).condvar_list@.len() && j != condvar_id
                ==> #[trigger] final(inner).condvar_list@[j] == old(inner).condvar_list@[j]
        },
        r is None ==> *final(inner) == *old(inner),
        *final(inner) == (ProcessControlBlockInner { condvar_list: final(inner).condvar_list, ..*old(inner) }),
        final(inner).fd_table@ == old(inner).fd_table@,
{
    if condvar_id >= inner.condvar_list.len() {
        return None;
    }
    if inner.condvar_list[condvar_id].is_none() {
        return None;
    }
    match take_slot(&mut inner.condvar_list, condvar_id) {
        Some(mut c) => {
            let woken = c.signal();
            put_slot(&mut inner.condvar_list, condvar_id, Some(c));
            Some(woken)
        },
        None => {
            put_slot(&mut inner.condvar_list, condvar_id, None);
            assert(inner.condvar_list@ =~= old(inner).condvar_list@);
            None
        },
    }
}

/// Wait on condition variable `condvar_id`, releasing mutex `mutex_id`:
/// `current` is queued and must block; the thread handed the mutex, if any,
/// must be woken. Nothing, and the call returns -1, when either does not
/// exist
pub fn sys_condvar_wait(
    inner: &mut ProcessControlBlockInner,
    condvar_id: usize,
    mutex_id: usize,
    current: TaskRef,
) -> (r: Option<Option<TaskRef>>)
    requires
        condvar_id < old(inner).condvar_list@.len() && old(inner).condvar_list@[condvar_id as int] is Some
            && mutex_id < old(inner).mutex_list@.len() && old(inner).mutex_list@[mutex_id as int] is Some
            ==> old(inner).mutex_list@[mutex_id as int]->0.may_unlock(),
    ensures
        !(condvar_id < old(inner).condvar_list@.len() && old(inner).condvar_list@[condvar_id as int] is Some
            && mutex_id < old(inner).mutex_list@.len() && old(inner).mutex_list@[mutex_id as int] is Some) ==> {
            &&& r == None::<Option<TaskRef>>
            &&& final(inner).condvar_list@ == old(inner).condvar_list@
            &&& final(inner).mutex_list@ == old(inner).mutex_list@
        },
        condvar_id < old(inner).condvar_list@.len() && old(inner).condvar_list@[condvar_id as int] is Some
            && mutex_id < old(inner).mutex_list@.len() && old(inner).mutex_list@[mutex_id as int] is Some ==> {
            let c0 = old(inner).condvar_list@[condvar_id as int]->0;
            &&& final(inner).condvar_list@[condvar_id as int] matches Some(c1)
                && c1.inner.wait_queue@ == c0.inner.wait_queue@.push(current)
            &&& r matches Some(woken) && final(inner).mutex_list@[mutex_id as int] matches Some(m1)
                && m1.is_locked() == woken.is_some()
            &&& r matches Some(woken) && woken == old(inner).mutex_list@[mutex_id as int]->0.next_holder()
            &&& final(inner).condvar_list@.len() == old(inner).condvar_list@.len()
            &&& final(inner).mutex_list@.len() == old(inner).mutex_list@.len()
        },
        r is None ==> *final(inner) == *old(inner),
        *final(inner) == (ProcessControlBlockInner { condvar_list: final(inner).condvar_list, mutex_list: final(inner).mutex_list, ..*old(inner) }),
        final(inner).fd_table@ == old(inner).fd_table@,
{
    if condvar_id >= inner.condvar_list.len() || mutex_id >= inner.mutex_list.len() {
        return None;
    }
    if inner.condvar_list[condvar_id].is_none() || inner.mutex_list[mutex_id].is_none() {
        return None;
    }
    let mut c = take_slot(&mut inner.condvar_list, condvar_id).unwrap();
    let mut m = take_slot(&mut inner.mutex_list, mutex_id).unwrap();
    let woken = c.wait(&mut m, current);
    put_slot(&mut inner.condvar_list, condvar_id, Some(c));
    put_slot(&mut inner.mutex_list, mutex_id, Some(m));
    Some(woken)
}

/// Let the running thread sleep for `ms` milliseconds from `now_ms`: it is
/// queued among the sleeping threads and blocked; returned so that the
/// scheduler saves its context
pub fn sys_sleep(
    timers: &mut Vec<CondVar>,
    processor: &mut Processor,
    processes: &mut BTreeMap<usize, ProcessControlBlock>,
    now_ms: usize,
    ms: usize,
) -> (task: TaskRef)
    requires
        now_ms + ms <= usize::MAX,
        sorted(old(timers)@),
        old(processor).running() is Some,
        task_exists(old(processes)@, old(processor).running()->0),
    ensures
        task == old(processor).running()->0,
        sorted(final(timers)@),
        final(timers)@.to_multiset() == old(timers)@.to_multiset().insert(CondVar { expire_ms: (now_ms + ms) as usize, task }),
        final(processor).running() == None::<TaskRef>,
        task_status(final(processes)@, task) == Status::Blocked,
        final(processes)@.dom() == old(processes)@.dom(),
{
    let expire_ms = now_ms + ms;
    let task = processor.current().unwrap();
    crate::timer::add(timers, expire_ms, task);
    crate::task::block_current_and_run_next(processor, processes)
}

/// The thread that `up` on a semaphore with count `count` and waiting
/// threads `waiting` hands the resource to: the one queued last, when the
/// count stays at most 0 and some thread waits.
pub open spec fn up_woken(count: isize, waiting: Seq<TaskRef>) -> Option<TaskRef> {
    if count + 1 <= 0 && waiting.len() > 0 { Some(waiting.last()) } else { None }
}

/// Wake `woken`, if it is a thread of `processes`: it is marked ready and
/// queued
fn wake_if_present(processes: &mut BTreeMap<usize, ProcessControlBlock>, manager: &mut Manager, woken: Option<TaskRef>)
    ensures
        final(processes)@.dom() == old(processes)@.dom(),
        forall|t: TaskRef| #[trigger] task_exists(old(processes)@, t) ==> task_exists(final(processes)@, t),
        (woken is Some && task_exists(old(processes)@, woken->0)) ==> {
            let t = woken->0;
            &&& task_status(final(processes)@, t) == Status::Ready
            &&& final(manager).queue() == old(manager).queue().push(t)
            &&& forall|p: usize| p != t.pid && #[trigger] old(processes)@.contains_key(p)
                ==> final(processes)@[p] == old(processes)@[p]
            &&& final(processes)@[t.pid] == (ProcessControlBlock {
                inner: ProcessControlBlockInner { tasks: final(processes)@[t.pid].inner.tasks, ..old(processes)@[t.pid].inner },
                ..old(processes)@[t.pid]
            })
        },
        !(woken is Some && task_exists(old(processes)@, woken->0)) ==> (final(processes)@ == old(processes)@
            && final(manager).queue() == old(manager).queue()),
{
    match woken {
        Some(t) => {
            if task_present(processes, t) {
                wakeup(manager, processes, t);
            }
        },
        None => {},
    }
}

/// `up` on semaphore `sem_id` of the running thread's process (see
/// [`sys_semaphore_up`]), then the thread it hands the resource to, if any,
/// is woken: marked ready and queued. 0 and that thread, or -1 when there is
/// no such semaphore
pub fn semaphore_up(
    processor: &Processor,
    processes: &mut BTreeMap<usize, ProcessControlBlock>,
    manager: &mut Manager,
    sem_id: usize,
) -> (r: (isize, Option<TaskRef>))
    requires
        processor.running() is Some,
        old(processes)@.contains_key(processor.running()->0.pid),
        ({
            let l = old(processes)@[processor.running()->0.pid].inner.semaphore_list@;
            sem_id < l.len() && l[sem_id as int] is Some ==> l[sem_id as int]->0.inner.count < isize::MAX
        }),
    ensures
        ({
            let pid = processor.running()->0.pid;
            let l = old(processes)@[pid].inner.semaphore_list@;
            let exists = sem_id < l.len() && l[sem_id as int] is Some;
            let s0 = l[sem_id as int]->0;
            let w = up_woken(s0.inner.count, s0.inner.wait_queue@);
            &&& !exists ==> r == (-1isize, None::<TaskRef>) && final(processes)@ == old(processes)@
                && final(manager).queue() == old(manager).queue()
            &&& exists ==> {
                &&& r == (0isize, w)
                &&& final(processes)@.dom() == old(processes)@.dom()
                &&& final(processes)@[pid].inner.semaphore_list@.len() == l.len()
                &&& final(processes)@[pid].inner.semaphore_list@[sem_id as int] matches Some(s1)
                    && s1.inner.count == s0.inner.count + 1
                    && s1.inner.wait_queue@ == (if w is Some { s0.inner.wait_queue@.drop_last() } else { s0.inner.wait_queue@ })
                &&& forall|j: int| 0 <= j < l.len() && j != sem_id
                    ==> #[trigger] final(processes)@[pid].inner.semaphore_list@[j] == l[j]
                &&& (w is Some && task_exists(old(processes)@, w->0)) ==> (task_status(final(processes)@, w->0)
                    == Status::Ready && final(manager).queue() == old(manager).queue().push(w->0))
                &&& !(w is Some && task_exists(old(processes)@, w->0)) ==> final(manager).queue()
                    == old(manager).queue()
            }
        }),
{
    let pid = crate::task::processor::current_pcb(processor);
    let mut pcb = processes.remove(&pid).unwrap();
    let res = sys_semaphore_up(&mut pcb.inner, sem_id);
    processes.insert(pid, pcb);
    proof {
        assert(processes@.dom() =~= old(processes)@.dom());
    }
    match res {
        None => {
            proof {
                assert(processes@ =~= old(processes)@);
            }
            (-1, None)
        },
        Some(w) => {
            let ghost p1 = processes@;
            proof {
                assert forall|t: TaskRef| task_exists(old(processes)@, t) <==> #[trigger] task_exists(p1, t) by {}
            }
            wake_if_present(processes, manager, w);
            proof {
                if let Some(t) = w {
                    if task_exists(p1, t) && t.pid == pid {
                        assert(processes@[pid].inner.semaphore_list == p1[pid].inner.semaphore_list);
                    }
                }
            }
            (0, w)
        },
    }
}

/// `down` on semaphore `sem_id` for the running thread (see
/// [`sys_semaphore_down`]): when no resource is left, the thread was queued
/// on the semaphore and is now blocked and taken off the processor, and it
/// is returned so that the scheduler saves its context and runs another.
/// 0 and that thread, if it blocked, or -1 when there is no such semaphore
pub fn semaphore_down(
    processor: &mut Processor,
    processes: &mut BTreeMap<usize, ProcessControlBlock>,
    sem_id: usize,
) -> (r: (isize, Option<TaskRef>))
    requires
        old(processor).running() is Some,
        task_exists(old(processes)@, old(processor).running()->0),
        ({
            let l = old(processes)@[old(processor).running()->0.pid].inner.semaphore_list@;
            sem_id < l.len() && l[sem_id as int] is Some ==> l[sem_id as int]->0.inner.count > isize::MIN
        }),
    ensures
        ({
            let me = old(processor).running()->0;
            let l = old(processes)@[me.pid].inner.semaphore_list@;
            let exists = sem_id < l.len() && l[sem_id as int] is Some;
            let s0 = l[sem_id as int]->0;
            let blocks = s0.inner.count - 1 < 0;
            &&& !exists ==> r == (-1isize, None::<TaskRef>) && final(processes)@ == old(processes)@
                && final(processor).running() == old(processor).running()
            &&& exists ==> {
                &&& final(processes)@.dom() == old(processes)@.dom()
                &&& final(processes)@[me.pid].inner.semaphore_list@[sem_id as int] matches Some(s1)
                    && s1.inner.count == s0.inner.count - 1
                    && s1.inner.wait_queue@ == (if blocks { s0.inner.wait_queue@.push(me) } else { s0.inner.wait_queue@ })
                &&& blocks ==> r == (0isize, Some(me)) && task_status(final(processes)@, me) == Status::Blocked
                    && final(processor).running() == None::<TaskRef>
                &&& !blocks ==> r == (0isize, None::<TaskRef>) && final(processor).running() == old(processor).running()
                    && task_status(final(processes)@, me) == task_status(old(processes)@, me)
            }
        }),
{
    let me = processor.current().unwrap();
    let mut pcb = processes.remove(&me.pid).unwrap();
    let res = sys_semaphore_down(&mut pcb.inner, sem_id, me);
    processes.insert(me.pid, pcb);
    proof {
        assert(processes@.dom() =~= old(processes)@.dom());
        assert(task_exists(processes@, me));
    }
    match res {
        None => {
            proof {
                assert(processes@ =~= old(processes)@);
            }
            (-1, None)
        },
        Some(blocked) => {
            if blocked {
                let t = crate::task::block_current(processor, processes);
                (0, Some(t))
            } else {
                (0, None)
            }
        },
    }
}

/// Wait on condition variable `condvar_id` for the running thread,
/// releasing mutex `mutex_id` (see [`sys_condvar_wait`]): the thread the
/// mutex is handed to, if any, is woken (marked ready and queued), and the
/// running thread, queued on the variable, is blocked and taken off the
/// processor; it is returned so that the scheduler saves its context.
/// Once a signal wakes it (see [`condvar_signal`]) and it runs again, it
/// takes the mutex back with [`mutex_lock`]. 0 and that thread, or -1 when
/// either does not exist
pub fn condvar_wait(
    processor: &mut Processor,
    processes: &mut BTreeMap<usize, ProcessControlBlock>,
    manager: &mut Manager,
    condvar_id: usize,
    mutex_id: usize,
) -> (r: (isize, Option<TaskRef>))
    requires
        old(processor).running() is Some,
        task_exists(old(processes)@, old(processor).running()->0),
        ({
            let i = old(processes)@[old(processor).running()->0.pid].inner;
            condvar_id < i.condvar_list@.len() && i.condvar_list@[condvar_id as int] is Some
                && mutex_id < i.mutex_list@.len() && i.mutex_list@[mutex_id as int] is Some
                ==> i.mutex_list@[mutex_id as int]->0.may_unlock()
        }),
    ensures
        ({
            let me = old(processor).running()->0;
            let i = old(processes)@[me.pid].inner;
            let exists = condvar_id < i.condvar_list@.len() && i.condvar_list@[condvar_id as int] is Some
                && mutex_id < i.mutex_list@.len() && i.mutex_list@[mutex_id as int] is Some;
            &&& !exists ==> r == (-1isize, None::<TaskRef>) && final(processes)@ == old(processes)@
                && final(processor).running() == old(processor).running()
                && final(manager).queue() == old(manager).queue()
            &&& exists ==> {
                let c0 = i.condvar_list@[condvar_id as int]->0;
                let w = i.mutex_list@[mutex_id as int]->0.next_holder();
                &&& r == (0isize, Some(me))
                &&& final(processes)@.dom() == old(processes)@.dom()
                &&& final(processor).running() == None::<TaskRef>
                &&& task_status(final(processes)@, me) == Status::Blocked
                &&& final(processes)@[me.pid].inner.condvar_list@[condvar_id as int] matches Some(c1)
                    && c1.inner.wait_queue@ == c0.inner.wait_queue@.push(me)
                &&& final(processes)@[me.pid].inner.mutex_list@[mutex_id as int] matches Some(m1)
                    && m1.is_locked() == w.is_some()
                &&& (w is Some && task_exists(old(processes)@, w->0)) ==> final(manager).queue()
                    == old(manager).queue().push(w->0)
                &&& (w is Some && task_exists(old(processes)@, w->0) && w->0 != me) ==> task_status(
                    final(processes)@,
                    w->0,
                ) == Status::Ready
                &&& !(w is Some && task_exists(old(processes)@, w->0)) ==> final(manager).queue()
                    == old(manager).queue()
            }
        }),
{
    let me = processor.current().unwrap();
    let mut pcb = processes.remove(&me.pid).unwrap();
    let res = sys_condvar_wait(&mut pcb.inner, condvar_id, mutex_id, me);
    processes.insert(me.pid, pcb);
    proof {
        assert(processes@.dom() =~= old(processes)@.dom());
        assert(task_exists(processes@, me));
    }
    match res {
        None => {
            proof {
                assert(processes@ =~= old(processes)@);
            }
            (-1, None)
        },
        Some(woken) => {
            wake_if_present(processes, manager, woken);
            let t = crate::task::block_current(processor, processes);
            (0, Some(t))
        },
    }
}

/// The thread a signal on a condition variable with waiting threads
/// `waiting` wakes: the one that has waited longest.
pub open spec fn first_waiter(waiting: Seq<TaskRef>) -> Option<TaskRef> {
    if waiting.len() > 0 { Some(waiting[0]) } else { None }
}

/// Signal condition variable `condvar_id` of the running thread's process
/// (see [`sys_condvar_signal`]): the thread that has waited longest, if
/// any, leaves the variable and is woken, marked ready and queued. 0 and
/// that thread, or -1 when there is no such variable
pub fn condvar_signal(
    processor: &Processor,
    processes: &mut BTreeMap<usize, ProcessControlBlock>,
    manager: &mut Manager,
    condvar_id: usize,
) -> (r: (isize, Option<TaskRef>))
    requires
        processor.running() is Some,
        old(processes)@.contains_key(processor.running()->0.pid),
    ensures
        ({
            let pid = processor.running()->0.pid;
            let l = old(processes)@[pid].inner.condvar_list@;
            let exists = condvar_id < l.len() && l[condvar_id as int] is Some;
            let c0 = l[condvar_id as int]->0;
            let w = first_waiter(c0.inner.wait_queue@);
            &&& !exists ==> r == (-1isize, None::<TaskRef>) && final(processes)@ == old(processes)@
                && final(manager).queue() == old(manager).queue()
            &&& exists ==> {
                &&& r == (0isize, w)
                &&& final(processes)@.dom() == old(processes)@.dom()
                &&& final(processes)@[pid].inner.condvar_list@.len() == l.len()
                &&& final(processes)@[pid].inner.condvar_list@[condvar_id as int] matches Some(c1)
                    && c1.inner.wait_queue@ == (if w is Some { c0.inner.wait_queue@.drop_first() } else { c0.inner.wait_queue@ })
                &&& forall|j: int| 0 <= j < l.len() && j != condvar_id
                    ==> #[trigger] final(processes)@[pid].inner.condvar_list@[j] == l[j]
                &&& (w is Some && task_exists(old(processes)@, w->0)) ==> (task_status(final(processes)@, w->0)
                    == Status::Ready && final(manager).queue() == old(manager).queue().push(w->0))
                &&& !(w is Some && task_exists(old(processes)@, w->0)) ==> final(manager).queue()
                    == old(manager).queue()
            }
        }),
{
    let pid = crate::task::processor::current_pcb(processor);
    let mut pcb = processes.remove(&pid).unwrap();
    let res = sys_condvar_signal(&mut pcb.inner, condvar_id);
    processes.insert(pid, pcb);
    proof {
        assert(processes@.dom() =~= old(processes)@.dom());
    }
    match res {
        None => {
            proof {
                assert(processes@ =~= old(processes)@);
            }
            (-1, None)
        },
        Some(w) => {
            let ghost p1 = processes@;
            proof {
                assert forall|t: TaskRef| task_exists(old(processes)@, t) <==> #[trigger] task_exists(p1, t) by {}
            }
            wake_if_present(processes, manager, w);
            proof {
                if let Some(t) = w {
                    if task_exists(p1, t) && t.pid == pid {
                        assert(processes@[pid].inner.condvar_list == p1[pid].inner.condvar_list);
                    }
                }
            }
            (0, w)
        },
    }
}

/// Unlock mutex `mutex_id` of the running thread's process (see
/// [`sys_mutex_unlock`]): the thread the mutex is handed to, if any (see
/// [`Mutex::next_holder`]), is woken, marked ready and queued. 0 and that
/// thread, or -1 when there is no such mutex
pub fn mutex_unlock(
    processor: &Processor,
    processes: &mut BTreeMap<usize, ProcessControlBlock>,
    manager: &mut Manager,
    mutex_id: usize,
) -> (r: (isize, Option<TaskRef>))
    requires
        processor.running() is Some,
        old(processes)@.contains_key(processor.running()->0.pid),
        ({
            let l = old(processes)@[processor.running()->0.pid].inner.mutex_list@;
            mutex_id < l.len() && l[mutex_id as int] is Some ==> l[mutex_id as int]->0.may_unlock()
        }),
    ensures
        ({
            let pid = processor.running()->0.pid;
            let l = old(processes)@[pid].inner.mutex_list@;
            let exists = mutex_id < l.len() && l[mutex_id as int] is Some;
            let w = l[mutex_id as int]->0.next_holder();
            &&& !exists ==> r == (-1isize, None::<TaskRef>) && final(processes)@ == old(processes)@
                && final(manager).queue() == old(manager).queue()
            &&& exists ==> {
                &&& r == (0isize, w)
                &&& final(processes)@.dom() == old(processes)@.dom()
                &&& final(processes)@[pid].inner.mutex_list@[mutex_id as int] matches Some(m1)
                    && m1.is_locked() == w.is_some()
                &&& (w is Some && task_exists(old(processes)@, w->0)) ==> (task_status(final(processes)@, w->0)
                    == Status::Ready && final(manager).queue() == old(manager).queue().push(w->0))
                &&& !(w is Some && task_exists(old(processes)@, w->0)) ==> final(manager).queue()
                    == old(manager).queue()
            }
        }),
{
    let pid = crate::task::processor::current_pcb(processor);
    let mut pcb = processes.remove(&pid).unwrap();
    let res = sys_mutex_unlock(&mut pcb.inner, mutex_id);
    processes.insert(pid, pcb);
    proof {
        assert(processes@.dom() =~= old(processes)@.dom());
    }
    match res {
        None => {
            proof {
                assert(processes@ =~= old(processes)@);
            }
            (-1, None)
        },
        Some(w) => {
            let ghost p1 = processes@;
            proof {
                assert forall|t: TaskRef| task_exists(old(processes)@, t) <==> #[trigger] task_exists(p1, t) by {}
            }
            wake_if_present(processes, manager, w);
            proof {
                if let Some(t) = w {
                    if task_exists(p1, t) && t.pid == pid {
                        assert(processes@[pid].inner.mutex_list == p1[pid].inner.mutex_list);
                    }
                }
            }
            (0, w)
        },
    }
}

/// Lock mutex `mutex_id` of the running thread's process for it (see
/// [`sys_mutex_lock`]): when the mutex is held, a spinning mutex has the
/// thread yield (marked ready and queued again, to retry), a blocking one
/// has it queued on the mutex and blocked; either way it leaves the
/// processor and is returned, so that the scheduler saves its context. 0
/// and that thread, if it left, or -1 when there is no such mutex. This is
/// also how a thread woken from a condition variable takes its mutex back.
pub fn mutex_lock(
    processor: &mut Processor,
    processes: &mut BTreeMap<usize, ProcessControlBlock>,
    manager: &mut Manager,
    mutex_id: usize,
) -> (r: (isize, Option<TaskRef>))
    requires
        old(processor).running() is Some,
        task_exists(old(processes)@, old(processor).running()->0),
    ensures
        ({
            let me = old(processor).running()->0;
            let l = old(processes)@[me.pid].inner.mutex_list@;
            let exists = mutex_id < l.len() && l[mutex_id as int] is Some;
            let m0 = l[mutex_id as int]->0;
            &&& !exists ==> r == (-1isize, None::<TaskRef>) && final(processes)@ == old(processes)@
                && final(processor).running() == old(processor).running()
                && final(manager).queue() == old(manager).queue()
            &&& exists ==> {
                &&& final(processes)@.dom() == old(processes)@.dom()
                &&& final(processes)@[me.pid].inner.mutex_list@[mutex_id as int] matches Some(m1) && m1.is_locked()
                &&& !m0.is_locked() ==> r == (0isize, None::<TaskRef>)
                    && final(processor).running() == old(processor).running()
                    && final(manager).queue() == old(manager).queue()
                &&& m0.is_locked() ==> r == (0isize, Some(me)) && final(processor).running() == None::<TaskRef>
                &&& (m0.is_locked() && m0 is Spin) ==> task_status(final(processes)@, me) == Status::Ready
                    && final(manager).queue() == old(manager).queue().push(me)
                &&& (m0.is_locked() && m0 is Blocking) ==> task_status(final(processes)@, me) == Status::Blocked
                    && final(manager).queue() == old(manager).queue()
            }
        }),
{
    let me = processor.current().unwrap();
    let mut pcb = processes.remove(&me.pid).unwrap();
    let res = sys_mutex_lock(&mut pcb.inner, mutex_id, me);
    processes.insert(me.pid, pcb);
    proof {
        assert(processes@.dom() =~= old(processes)@.dom());
        assert(task_exists(processes@, me));
    }
    match res {
        None => {
            proof {
                assert(processes@ =~= old(processes)@);
            }
            (-1, None)
        },
        Some(LockOutcome::Acquired) => (0, None),
        Some(LockOutcome::Retry) => {
            let t = crate::task::suspend_current_and_run_next(processor, manager, processes);
            (0, Some(t))
        },
        Some(LockOutcome::Blocked) => {
            let t = crate::task::block_current(processor, processes);
            (0, Some(t))
        },
    }
}

} // verus!
