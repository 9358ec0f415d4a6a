//! The timer: tick arithmetic and the threads sleeping until a given time.

use vstd::prelude::*;
use std::collections::BTreeMap;
use crate::task::manager::{task_exists, wakeup, Manager};
use crate::task::pcb::ProcessControlBlock;
use crate::task::tcb::TaskRef;

verus! {

broadcast use vstd::std_specs::btree::group_btree_axioms;

/// Timer ticks per second
pub const CLOCK_FREQ: usize = 10_000_000;

/// Timer interrupts per second
pub const TICKS_PER_SEC: usize = 100;

/// Milliseconds per second
pub const MSEC_PER_SEC: usize = 1000;

/// The time in milliseconds when the timer reads `ticks`
pub fn get_time_ms(ticks: usize) -> (ms: usize)
    ensures
        ms == ticks / (CLOCK_FREQ / MSEC_PER_SEC),
{
    ticks / (CLOCK_FREQ / MSEC_PER_SEC)
}

/// When the next timer interrupt is due, the timer reading `now`: one
/// scheduling period later
pub fn set_next_trigger(now: usize) -> (t: usize)
    requires
        now + CLOCK_FREQ / TICKS_PER_SEC <= usize::MAX,
    ensures
        t == now + CLOCK_FREQ / TICKS_PER_SEC,
{
    now + CLOCK_FREQ / TICKS_PER_SEC
}

/// A thread sleeping until `expire_ms`
#[derive(Clone, Copy, Debug, PartialEq, Eq, Structural)]
pub struct CondVar {
    pub expire_ms: usize,
    pub task: TaskRef,
}

/// The sleeping threads, earliest expiry first.
pub open spec fn sorted(timers: Seq<CondVar>) -> bool {
    forall|i: int, j: int| 0 <= i <= j < timers.len() ==> #[trigger] timers[i].expire_ms <= #[trigger] timers[j].expire_ms
}

/// Let `task` sleep until `expire_ms`; it goes after the threads expiring at
/// the same time
pub fn add(timers: &mut Vec<CondVar>, expire_ms: usize, task: TaskRef)
    requires
        sorted(old(timers)@),
    ensures
        sorted(final(timers)@),
        exists|k: int| 0 <= k <= old(timers)@.len() && final(timers)@ == old(timers)@.insert(k, CondVar { expire_ms, task }),
        final(timers)@.to_multiset() == old(timers)@.to_multiset().insert(CondVar { expire_ms, task }),
{
    let mut k: usize = 0;
    while k < timers.len() && timers[k].expire_ms <= expire_ms
        invariant
            k <= timers@.len(),
            timers@ == old(timers)@,
            sorted(timers@),
            forall|i: int| 0 <= i < k ==> #[trigger] timers@[i].expire_ms <= expire_ms,
        decreases timers@.len() - k,
    {
        k = k + 1;
    }
    let ghost t0 = timers@;
    let c = CondVar { expire_ms, task };
    timers.insert(k, c);
    proof {
        assert(timers@ == t0.insert(k as int, c));
        assert forall|i: int, j: int| 0 <= i <= j < timers@.len() implies #[trigger] timers@[i].expire_ms <= #[trigger] timers@[j].expire_ms by {
            if i < k && j == k {
            } else if i == k && j > k {
                assert(timers@[j] == t0[j - 1]);
                assert(k < t0.len());
                assert(!(t0[k as int].expire_ms <= expire_ms));
                assert(t0[k as int].expire_ms <= t0[j - 1].expire_ms);
            } else if i < k && j > k {
                assert(timers@[j] == t0[j - 1]);
            } else if i > k {
                assert(timers@[i] == t0[i - 1] && timers@[j] == t0[j - 1]);
            }
        }
        t0.to_multiset_ensures();
        vstd::seq_lib::to_multiset_insert(t0, k as int, c);
    }
}

/// Wake, in order, the sleeping threads whose time `current_ms` has come
pub fn check(
    timers: &mut Vec<CondVar>,
    current_ms: usize,
    manager: &mut Manager,
    processes: &mut BTreeMap<usize, ProcessControlBlock>,
)
    requires
        sorted(old(timers)@),
        forall|i: int| 0 <= i < old(timers)@.len() ==> task_exists(old(processes)@, #[trigger] old(timers)@[i].task),
    ensures
        sorted(final(timers)@),
        ({
            let n = old(timers)@.len() - final(timers)@.len();
            &&& 0 <= n
            &&& final(timers)@ == old(timers)@.skip(n)
            &&& forall|i: int| 0 <= i < n ==> #[trigger] old(timers)@[i].expire_ms <= current_ms
            &&& final(timers)@.len() > 0 ==> final(timers)@[0].expire_ms > current_ms
            &&& final(manager).queue() == old(manager).queue() + old(timers)@.take(n).map_values(|c: CondVar| c.task)
        }),
        final(processes)@.dom() == old(processes)@.dom(),
{
    let len0 = timers.len();
    let ghost n0 = timers@.len();
    let mut n: usize = 0;
    while timers.len() > 0 && timers[0].expire_ms <= current_ms
        invariant
            timers@ == old(timers)@.skip(n as int),
            n <= n0,
            n0 == len0,
            timers@.len() == n0 - n,
            n0 == old(timers)@.len(),
            sorted(old(timers)@),
            forall|i: int| 0 <= i < n ==> #[trigger] old(timers)@[i].expire_ms <= current_ms,
            forall|i: int| n <= i < n0 ==> task_exists(processes@, #[trigger] old(timers)@[i].task),
            manager.queue() == old(manager).queue() + old(timers)@.take(n as int).map_values(|c: CondVar| c.task),
            processes@.dom() == old(processes)@.dom(),
        decreases timers@.len(),
    {
        let timer = timers.remove(0);
        proof {
            assert(timer == old(timers)@[n as int]);
        }
        let ghost pr0 = processes@;
        wakeup(manager, processes, timer.task);
        proof {
            assert forall|i: int| n + 1 <= i < n0 implies task_exists(processes@, #[trigger] old(timers)@[i].task) by {
                let t = old(timers)@[i].task;
                assert(task_exists(pr0, t));
            }
            assert(old(timers)@.take(n + 1).map_values(|c: CondVar| c.task)
                == old(timers)@.take(n as int).map_values(|c: CondVar| c.task).push(timer.task));
            assert(timers@ == old(timers)@.skip(n + 1));
        }
        n = n + 1;
    }
    proof {
        assert(n0 - timers@.len() == n);
        assert forall|i: int, j: int| 0 <= i <= j < timers@.len() implies #[trigger] timers@[i].expire_ms <= #[trigger] timers@[j].expire_ms by {
            assert(timers@[i] == old(timers)@[i + n] && timers@[j] == old(timers)@[j + n]);
        }
    }
}

} // verus!
