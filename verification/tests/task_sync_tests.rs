use std::collections::BTreeMap;

use lemon_core::fs::FileHandle;
use lemon_core::mm::address::{PhysMem, PhysPageNum};
use lemon_core::mm::frame_allocator::StackFrameAllocator;
use lemon_core::mm::memory_set::MemorySet;
use lemon_core::sync::condvar::Condvar;
use lemon_core::sync::mutex::{AnyMutex, LockOutcome, Mutex, MutexBlocking, MutexSpin};
use lemon_core::sync::semaphore::Semaphore;
use lemon_core::task::id::RecycleAllocator;
use lemon_core::task::manager::{fetch, insert_into_pid2process, pid2process, remove_from_pid2process, wakeup, Manager};
use lemon_core::task::pcb::{position_none, ProcessControlBlock, ProcessControlBlockInner};
use lemon_core::task::processor::{current_pcb, current_tcb, current_trap_cx, current_trap_cx_user_va, current_user_token, take_current_tcb, Processor};
use lemon_core::task::signal::{SignalFlags, SIGABRT, SIGINT, SIGSEGV};
use lemon_core::task::tcb::{Status, TaskControlBlock, TaskRef, TaskUserRes, TRAP_CONTEXT_BASE, USER_STACK_SIZE};
use lemon_core::task::{
    add_signal_to_current, block_current, block_current_and_run_next, check_signals_error_of_current,
    exit_current_and_run_next, suspend_current_and_run_next, ExitOutcome,
};
use lemon_core::timer::{check as check_timers, get_time_ms, set_next_trigger, CondVar};

fn t(pid: usize, tid: usize) -> TaskRef {
    TaskRef { pid, tid }
}

fn tcb(pid: usize, tid: usize) -> TaskControlBlock {
    TaskControlBlock::new(pid, tid, TaskUserRes { tid, ustack_base: 0x1_0000 }, PhysPageNum(0x300 + tid))
}

fn process(pid: usize, threads: usize, a: &mut StackFrameAllocator, mem: &mut PhysMem) -> ProcessControlBlock {
    let mut ids = RecycleAllocator::new();
    let mut tasks = Vec::new();
    for tid in 0..threads {
        assert_eq!(ids.alloc_id(), tid);
        tasks.push(Some(tcb(pid, tid)));
    }
    ProcessControlBlock {
        pid,
        inner: ProcessControlBlockInner {
            is_zombie: false,
            memory_set: MemorySet::new_bare(a, mem),
            parent: None,
            children: Vec::new(),
            exit_code: 0,
            cwd: String::from("/"),
            fd_table: vec![Some(FileHandle::stdin()), Some(FileHandle::stdout()), Some(FileHandle::stdout())],
            signals: SignalFlags::empty(),
            tasks,
            task_res_allocator: ids,
            mutex_list: Vec::new(),
            semaphore_list: Vec::new(),
            condvar_list: Vec::new(),
        },
    }
}

fn machine() -> (StackFrameAllocator, PhysMem) {
    let mut a = StackFrameAllocator::new();
    a.init(PhysPageNum(0x100), PhysPageNum(0x200));
    (a, PhysMem::new(0x200))
}

#[test]
fn spin_mutex_asks_to_retry() {
    let mut m = MutexSpin::new();
    assert!(m.lock(t(1, 0)) == LockOutcome::Acquired);
    assert!(m.lock(t(1, 1)) == LockOutcome::Retry);
    assert_eq!(m.unlock(), None);
    assert!(m.lock(t(1, 1)) == LockOutcome::Acquired);
}

#[test]
fn blocking_mutex_hands_over_in_arrival_order() {
    let mut m = MutexBlocking::new();
    assert!(m.lock(t(1, 0)) == LockOutcome::Acquired);
    assert!(m.lock(t(1, 1)) == LockOutcome::Blocked);
    assert!(m.lock(t(1, 2)) == LockOutcome::Blocked);
    assert_eq!(m.unlock(), Some(t(1, 1)));
    assert!(m.inner.locked);
    assert_eq!(m.unlock(), Some(t(1, 2)));
    assert_eq!(m.unlock(), None);
    assert!(!m.inner.locked);
    let mut any = AnyMutex::Blocking(MutexBlocking::new());
    assert!(any.lock(t(2, 0)) == LockOutcome::Acquired);
    assert!(any.lock(t(2, 1)) == LockOutcome::Blocked);
}

#[test]
fn semaphore_counts_and_wakes_last_waiter() {
    let mut s = Semaphore::new(1);
    assert!(!s.down(t(1, 0)));
    assert!(s.down(t(1, 1)));
    assert!(s.down(t(1, 2)));
    assert_eq!(s.inner.count, -2);
    assert_eq!(s.up(), Some(t(1, 2)));
    assert_eq!(s.up(), Some(t(1, 1)));
    assert_eq!(s.up(), None);
    assert_eq!(s.inner.count, 1);
}

#[test]
fn condvar_wait_releases_mutex_and_signal_wakes_first() {
    let mut c = Condvar::new();
    let mut m = MutexBlocking::new();
    m.lock(t(1, 0));
    m.lock(t(1, 1));
    // waiting hands the mutex to the thread queued on it
    assert_eq!(c.wait(&mut m, t(1, 0)), Some(t(1, 1)));
    assert!(m.inner.locked);
    let mut s = MutexSpin::new();
    s.lock(t(1, 3));
    assert_eq!(c.wait(&mut s, t(1, 3)), None);
    assert_eq!(c.signal(), Some(t(1, 0)));
    assert_eq!(c.signal(), Some(t(1, 3)));
    assert_eq!(c.signal(), None);
}

#[test]
fn manager_is_first_in_first_out() {
    let mut m = Manager::new();
    m.add(t(1, 0));
    lemon_core::task::manager::add(&mut m, t(2, 0));
    assert_eq!(fetch(&mut m), Some(t(1, 0)));
    assert_eq!(m.fetch(), Some(t(2, 0)));
    assert_eq!(m.fetch(), None);
}

#[test]
fn recycle_allocator_reuses_last_freed_id() {
    let mut r = RecycleAllocator::new();
    assert_eq!(r.alloc_id(), 0);
    assert_eq!(r.alloc_id(), 1);
    assert_eq!(r.alloc_id(), 2);
    r.dealloc(0);
    r.dealloc(2);
    assert_eq!(r.alloc_id(), 2);
    assert_eq!(r.alloc_id(), 0);
    assert_eq!(r.alloc_id(), 3);
}

#[test]
fn signals_report_first_error() {
    let mut s = SignalFlags::empty();
    assert_eq!(s.check_error(), None);
    s.insert(SignalFlags::from_bits(SIGSEGV).unwrap());
    assert_eq!(s.check_error(), Some((-11, "Segmentation Fault, SIGSEGV=11")));
    s.insert(SignalFlags::from_bits(SIGINT | SIGABRT).unwrap());
    assert_eq!(s.check_error(), Some((-2, "Killed, SIGINT=2")));
    assert!(s.contains(SIGABRT));
    assert!(SignalFlags::from_bits(1).is_none());
    assert_eq!(s.bits(), SIGINT | SIGABRT | SIGSEGV);
}

#[test]
fn user_resources_layout() {
    let res = TaskUserRes { tid: 2, ustack_base: 0x1_0000 };
    assert_eq!(res.trap_cx_user_va(), TRAP_CONTEXT_BASE - 2 * 4096);
    assert_eq!(res.ustack_top(), 0x1_0000 + 2 * (4096 + USER_STACK_SIZE) + USER_STACK_SIZE);
}

#[test]
fn processor_and_current_thread() {
    let (mut a, mut mem) = machine();
    let mut procs = BTreeMap::new();
    insert_into_pid2process(&mut procs, 1, process(1, 2, &mut a, &mut mem));
    let mut p = Processor::new();
    assert_eq!(current_tcb(&p), None);
    p.set_current(t(1, 1));
    assert_eq!(current_pcb(&p), 1);
    assert_eq!(current_trap_cx(&p, &procs).0, 0x301);
    assert_eq!(current_trap_cx_user_va(&p, &procs), TRAP_CONTEXT_BASE - 4096);
    let root = procs.get(&1).unwrap().inner.memory_set.token();
    assert_eq!(current_user_token(&p, &procs), root);
    assert_eq!(take_current_tcb(&mut p), Some(t(1, 1)));
    assert_eq!(p.current(), None);
}

#[test]
fn suspend_block_and_wakeup() {
    let (mut a, mut mem) = machine();
    let mut procs = BTreeMap::new();
    insert_into_pid2process(&mut procs, 1, process(1, 2, &mut a, &mut mem));
    let mut p = Processor::new();
    let mut m = Manager::new();
    p.set_current(t(1, 0));
    assert_eq!(suspend_current_and_run_next(&mut p, &mut m, &mut procs), t(1, 0));
    assert_eq!(m.fetch(), Some(t(1, 0)));
    p.set_current(t(1, 1));
    assert_eq!(block_current(&mut p, &mut procs), t(1, 1));
    assert!(procs.get(&1).unwrap().inner.tasks[1].unwrap().inner.task_status == Status::Blocked);
    wakeup(&mut m, &mut procs, t(1, 1));
    assert!(procs.get(&1).unwrap().inner.tasks[1].unwrap().inner.task_status == Status::Ready);
    assert_eq!(m.fetch(), Some(t(1, 1)));
    p.set_current(t(1, 0));
    assert_eq!(block_current_and_run_next(&mut p, &mut procs), t(1, 0));
    assert_eq!(p.current(), None);
}

#[test]
fn pid_registry() {
    let (mut a, mut mem) = machine();
    let mut procs = BTreeMap::new();
    insert_into_pid2process(&mut procs, 3, process(3, 1, &mut a, &mut mem));
    assert_eq!(pid2process(&procs, 3).map(|p| p.pid()), Some(3));
    assert!(pid2process(&procs, 4).is_none());
    remove_from_pid2process(&mut procs, 3);
    assert!(pid2process(&procs, 3).is_none());
    assert!(procs.get(&3).unwrap().inner_exclusive_access().is_zombie);
}

#[test]
fn signals_of_current_process() {
    let (mut a, mut mem) = machine();
    let mut procs = BTreeMap::new();
    insert_into_pid2process(&mut procs, 1, process(1, 1, &mut a, &mut mem));
    let mut p = Processor::new();
    p.set_current(t(1, 0));
    assert_eq!(check_signals_error_of_current(&p, &procs), None);
    add_signal_to_current(&p, &mut procs, SignalFlags::from_bits(SIGABRT).unwrap());
    assert_eq!(check_signals_error_of_current(&p, &procs), Some((-6, "Aborted, SIGABRT=6")));
}

#[test]
fn pcb_inner_helpers() {
    let (mut a, mut mem) = machine();
    let mut pcb = process(1, 1, &mut a, &mut mem);
    let inner = &mut pcb.inner;
    assert_eq!(inner.thread_count(), 1);
    assert_eq!(inner.task(0).inner.res.unwrap().tid, 0);
    assert_eq!(inner.alloc_tid(), 1);
    inner.dealloc_tid(1);
    assert_eq!(inner.alloc_tid(), 1);
    assert_eq!(inner.alloc_fd(), 3);
    assert_eq!(inner.fd_table.len(), 4);
    inner.fd_table[1] = None;
    assert_eq!(inner.alloc_fd(), 1);
    assert_eq!(position_none(&vec![Some(1), None, None]), Some(1));
    assert_eq!(position_none(&vec![Some(1)]), None);
}

#[test]
fn exit_of_a_secondary_thread_keeps_the_process() {
    let (mut a, mut mem) = machine();
    let mut procs = BTreeMap::new();
    insert_into_pid2process(&mut procs, 1, process(1, 2, &mut a, &mut mem));
    let mut p = Processor::new();
    p.set_current(t(1, 1));
    assert!(exit_current_and_run_next(&mut p, &mut procs, 7, 0) == ExitOutcome::RunNext);
    let inner = &procs.get(&1).unwrap().inner;
    assert!(!inner.is_zombie);
    assert_eq!(inner.tasks[1].unwrap().inner.exit_code, Some(7));
    assert!(inner.tasks[1].unwrap().inner.res.is_none());
}

#[test]
fn exit_of_a_main_thread_makes_a_zombie() {
    let (mut a, mut mem) = machine();
    let mut procs = BTreeMap::new();
    insert_into_pid2process(&mut procs, 0, process(0, 1, &mut a, &mut mem));
    let mut parent = process(1, 2, &mut a, &mut mem);
    parent.inner.children = vec![2, 3];
    insert_into_pid2process(&mut procs, 1, parent);
    insert_into_pid2process(&mut procs, 2, process(2, 1, &mut a, &mut mem));
    insert_into_pid2process(&mut procs, 3, process(3, 1, &mut a, &mut mem));
    let mut p = Processor::new();
    p.set_current(t(1, 0));
    assert!(exit_current_and_run_next(&mut p, &mut procs, 3, 0) == ExitOutcome::RunNext);
    let inner = &procs.get(&1).unwrap().inner;
    assert!(inner.is_zombie);
    assert_eq!(inner.exit_code, 3);
    assert!(inner.children.is_empty());
    assert!(inner.fd_table.is_empty());
    assert_eq!(inner.tasks.len(), 1);
    assert_eq!(procs.get(&0).unwrap().inner.children, vec![2, 3]);
    assert_eq!(procs.get(&2).unwrap().inner.parent, Some(0));
    assert!(pid2process(&procs, 1).is_none());
}

#[test]
fn exit_of_the_idle_process_shuts_down() {
    let (mut a, mut mem) = machine();
    let mut procs = BTreeMap::new();
    insert_into_pid2process(&mut procs, 0, process(0, 1, &mut a, &mut mem));
    let mut p = Processor::new();
    p.set_current(t(0, 0));
    assert!(exit_current_and_run_next(&mut p, &mut procs, 1, 0) == ExitOutcome::Shutdown(true));
    p.set_current(t(0, 0));
    let mut procs2 = BTreeMap::new();
    insert_into_pid2process(&mut procs2, 0, process(0, 1, &mut a, &mut mem));
    assert!(exit_current_and_run_next(&mut p, &mut procs2, 0, 0) == ExitOutcome::Shutdown(false));
}

#[test]
fn timer_arithmetic() {
    assert_eq!(get_time_ms(25_000), 2);
    assert_eq!(set_next_trigger(1_000), 101_000);
}

#[test]
fn timers_wake_expired_threads_in_order() {
    let (mut a, mut mem) = machine();
    let mut procs = BTreeMap::new();
    insert_into_pid2process(&mut procs, 1, process(1, 3, &mut a, &mut mem));
    let mut timers: Vec<CondVar> = Vec::new();
    lemon_core::timer::add(&mut timers, 50, t(1, 0));
    lemon_core::timer::add(&mut timers, 10, t(1, 1));
    lemon_core::timer::add(&mut timers, 30, t(1, 2));
    assert_eq!(timers.iter().map(|c| c.expire_ms).collect::<Vec<_>>(), vec![10, 30, 50]);
    let mut m = Manager::new();
    check_timers(&mut timers, 30, &mut m, &mut procs);
    assert_eq!(m.fetch(), Some(t(1, 1)));
    assert_eq!(m.fetch(), Some(t(1, 2)));
    assert_eq!(m.fetch(), None);
    assert_eq!(timers.len(), 1);
    check_timers(&mut timers, 49, &mut m, &mut procs);
    assert_eq!(timers.len(), 1);
    check_timers(&mut timers, 50, &mut m, &mut procs);
    assert!(timers.is_empty());
    assert_eq!(m.fetch(), Some(t(1, 0)));
}
