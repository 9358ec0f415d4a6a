use std::collections::BTreeMap;

use lemon_core::apps::ls::{dir_listing, list_step, ListStep};
use lemon_core::drivers::input::{encode_event, EventQueue, InputEvent, ReadBuffer};
use lemon_core::apps::sleep::{parse_time_argument, parse_usize};
use lemon_core::easy_fs::block_cache::BlockCacheManager;
use lemon_core::easy_fs::block_dev::BlockDevice;
use lemon_core::easy_fs::efs::EasyFileSystem;
use lemon_core::easy_fs::layout::{DirEntry, DiskInode, DiskInodeKind, DIRENT_SIZE};
use lemon_core::fs::{Stat, STAT_MODE_DIR, STAT_MODE_REG};
use lemon_core::mm::memory_set::{MapArea, MapPermission, MapType};
use lemon_core::mm::address::VirtAddr;
use lemon_core::fs::inode::OSInode;
use lemon_core::easy_fs::vfs::Inode;
use lemon_core::fs::O_RDONLY;
use lemon_core::fs::{get_full_path, FileHandle, FileKind, OpenFlags, O_CREATE, O_RDWR, O_TRUNC, O_WRONLY};
use lemon_core::mm::address::{PhysMem, PhysPageNum, VirtPageNum, PAGE_SIZE};
use lemon_core::mm::frame_allocator::StackFrameAllocator;
use lemon_core::mm::memory_set::MemorySet;
use lemon_core::sync::mutex::LockOutcome;
use lemon_core::syscall::fs::{chdir, open_path, sys_fstat, sys_getcwd, sys_pipe, sys_chdir, sys_close, sys_dup, sys_dup2, sys_mkdir, sys_open, sys_read, sys_unlink, sys_write, AT_REMOVEDIR};
use lemon_core::syscall::gui::{sys_framebuffer, sys_framebuffer_flush, FB_VADDR};
use lemon_core::syscall::input::{sys_event_get, sys_key_pressed, EventSource};
use lemon_core::syscall::process::{sys_exit, sys_get_time, sys_getpid, sys_kill, sys_waitpid, sys_yield};
use lemon_core::syscall::sync::{
    sys_condvar_create, sys_condvar_signal, sys_condvar_wait, sys_mutex_create, sys_mutex_lock, sys_mutex_unlock,
    condvar_signal, condvar_wait, mutex_lock, mutex_unlock, semaphore_down, semaphore_up, sys_semaphore_create, sys_semaphore_down, sys_semaphore_up, sys_sleep,
};
use lemon_core::syscall::thread::{sys_gettid, sys_thread_create, sys_waittid};
use lemon_core::task::id::RecycleAllocator;
use lemon_core::task::manager::{insert_into_pid2process, Manager};
use lemon_core::task::pcb::{KernelEntry, ProcessControlBlock, ProcessControlBlockInner};
use lemon_core::task::processor::Processor;
use lemon_core::task::signal::{SignalFlags, SIGINT};
use lemon_core::task::tcb::{Status, TaskControlBlock, TaskRef, TaskUserRes, TRAP_CONTEXT_BASE, USER_STACK_SIZE};
use lemon_core::task::ExitOutcome;
use lemon_core::timer::CondVar;

fn t(pid: usize, tid: usize) -> TaskRef {
    TaskRef { pid, tid }
}

fn machine() -> (StackFrameAllocator, PhysMem) {
    let mut a = StackFrameAllocator::new();
    a.init(PhysPageNum(0x100), PhysPageNum(0x200));
    (a, PhysMem::new(0x200))
}

fn process(pid: usize, threads: usize, a: &mut StackFrameAllocator, mem: &mut PhysMem) -> ProcessControlBlock {
    let mut ids = RecycleAllocator::new();
    let mut tasks = Vec::new();
    for tid in 0..threads {
        ids.alloc_id();
        tasks.push(Some(TaskControlBlock::new(pid, tid, TaskUserRes { tid, ustack_base: 0x1_0000 }, PhysPageNum(0x300 + tid))));
    }
    ProcessControlBlock {
        pid,
        inner: ProcessControlBlockInner {
            is_zombie: false,
            memory_set: MemorySet::new_bare(a, mem),
            parent: None,
            children: Vec::new(),
            exit_code: 0,
            cwd: String::from("/"),
            fd_table: vec![Some(FileHandle::stdin()), Some(FileHandle::stdout()), Some(FileHandle::stdout())],
            signals: SignalFlags::empty(),
            tasks,
            task_res_allocator: ids,
            mutex_list: Vec::new(),
            semaphore_list: Vec::new(),
            condvar_list: Vec::new(),
        },
    }
}

#[test]
fn full_paths() {
    assert_eq!(get_full_path("/", "a/b"), "/a/b");
    assert_eq!(get_full_path("/home/user", "docs/../file.txt"), "/home/user/file.txt");
    assert_eq!(get_full_path("/home/user", "/etc//./passwd"), "/etc/passwd");
    assert_eq!(get_full_path("/a/b", "../../.."), "/");
    assert_eq!(get_full_path("/a", ""), "/a");
    assert_eq!(get_full_path("", "x/"), "/x");
    // a full path is its own full path
    let p = get_full_path("/a/b", "./c/../d/e");
    assert_eq!(p, "/a/b/d/e");
    assert_eq!(get_full_path("/zzz", &p), p);
}

#[test]
fn open_flags() {
    let f = OpenFlags::from_bits(O_WRONLY | O_CREATE).unwrap();
    assert!(f.contains(O_CREATE));
    assert!(!f.contains(O_TRUNC));
    // read only is the empty flag: every file opened is readable
    assert_eq!(f.read_write(), (true, true));
    assert_eq!(OpenFlags::from_bits(0).unwrap().read_write(), (true, false));
    assert_eq!(OpenFlags::from_bits(O_RDWR).unwrap().read_write(), (true, true));
    assert!(OpenFlags::from_bits(4).is_none());
}

#[test]
fn file_descriptor_calls() {
    let (mut a, mut mem) = machine();
    let mut pcb = process(1, 1, &mut a, &mut mem);
    let inner = &mut pcb.inner;
    assert_eq!(sys_dup(inner, 1), 3);
    assert_eq!(inner.fd_table[3], Some(FileHandle::stdout()));
    assert_eq!(sys_dup(inner, 9), -1);
    assert_eq!(sys_close(inner, 0), 0);
    assert_eq!(sys_close(inner, 0), -1);
    assert_eq!(sys_close(inner, 40), -1);
    assert_eq!(sys_dup(inner, 2), 0);
    assert_eq!(sys_dup2(inner, 1, 6), 0);
    assert_eq!(inner.fd_table.len(), 7);
    assert_eq!(inner.fd_table[5], None);
    assert_eq!(inner.fd_table[6], Some(FileHandle::stdout()));
    assert_eq!(sys_dup2(inner, 8, 0), -1);
    assert_eq!(sys_read(inner, 1), None);
    assert_eq!(sys_write(inner, 1), Some(FileHandle::stdout()));
    assert_eq!(sys_write(inner, 5), None);
    let file = FileHandle { kind: FileKind::Inode(7), readable: true, writable: false };
    assert_eq!(sys_open(inner, Some(file)), 4);
    assert_eq!(sys_read(inner, 4), Some(file));
    assert_eq!(sys_open(inner, None), -1);
}

#[test]
fn directory_calls() {
    let (mut a, mut mem) = machine();
    let mut pcb = process(1, 1, &mut a, &mut mem);
    let inner = &mut pcb.inner;
    assert_eq!(sys_chdir(inner, String::from("/home"), Some(true)), 0);
    assert_eq!(inner.cwd, "/home");
    assert_eq!(sys_chdir(inner, String::from("/file"), Some(false)), -2);
    assert_eq!(sys_chdir(inner, String::from("/nowhere"), None), -1);
    assert_eq!(inner.cwd, "/home");
    assert_eq!(sys_mkdir(true, true), 0);
    assert_eq!(sys_mkdir(true, false), -2);
    assert_eq!(sys_mkdir(false, false), -1);
    assert_eq!(sys_unlink(0, Some((false, 100))), (0, true));
    assert_eq!(sys_unlink(AT_REMOVEDIR, Some((true, 64))), (0, true));
    assert_eq!(sys_unlink(AT_REMOVEDIR, Some((true, 96))), (-3, false));
    assert_eq!(sys_unlink(0, Some((true, 64))), (-2, false));
    assert_eq!(sys_unlink(AT_REMOVEDIR, Some((false, 0))), (-2, false));
    assert_eq!(sys_unlink(0, None), (-1, false));
}

#[test]
fn mutex_calls() {
    let (mut a, mut mem) = machine();
    let mut pcb = process(1, 1, &mut a, &mut mem);
    let inner = &mut pcb.inner;
    assert_eq!(sys_mutex_create(inner, true), 0);
    assert_eq!(sys_mutex_create(inner, false), 1);
    assert_eq!(sys_mutex_lock(inner, 0, t(1, 0)), Some(LockOutcome::Acquired));
    assert_eq!(sys_mutex_lock(inner, 0, t(1, 1)), Some(LockOutcome::Blocked));
    assert_eq!(sys_mutex_lock(inner, 1, t(1, 0)), Some(LockOutcome::Acquired));
    assert_eq!(sys_mutex_lock(inner, 1, t(1, 1)), Some(LockOutcome::Retry));
    assert_eq!(sys_mutex_lock(inner, 5, t(1, 1)), None);
    assert_eq!(sys_mutex_unlock(inner, 0), Some(Some(t(1, 1))));
    assert_eq!(sys_mutex_unlock(inner, 0), Some(None));
    assert_eq!(sys_mutex_unlock(inner, 1), Some(None));
    assert_eq!(sys_mutex_unlock(inner, 3), None);
    inner.mutex_list[0] = None;
    assert_eq!(sys_mutex_create(inner, false), 0);
}

#[test]
fn semaphore_and_condvar_calls() {
    let (mut a, mut mem) = machine();
    let mut pcb = process(1, 1, &mut a, &mut mem);
    let inner = &mut pcb.inner;
    assert_eq!(sys_semaphore_create(inner, 1), 0);
    assert_eq!(sys_semaphore_down(inner, 0, t(1, 0)), Some(false));
    assert_eq!(sys_semaphore_down(inner, 0, t(1, 1)), Some(true));
    assert_eq!(sys_semaphore_up(inner, 0), Some(Some(t(1, 1))));
    assert_eq!(sys_semaphore_up(inner, 0), Some(None));
    assert_eq!(sys_semaphore_up(inner, 2), None);
    assert_eq!(sys_semaphore_down(inner, 2, t(1, 0)), None);
    assert_eq!(sys_condvar_create(inner), 0);
    assert_eq!(sys_mutex_create(inner, true), 0);
    assert_eq!(sys_mutex_lock(inner, 0, t(1, 0)), Some(LockOutcome::Acquired));
    assert_eq!(sys_condvar_wait(inner, 0, 0, t(1, 0)), Some(None));
    assert_eq!(sys_condvar_wait(inner, 0, 4, t(1, 0)), None);
    assert_eq!(sys_condvar_signal(inner, 0), Some(Some(t(1, 0))));
    assert_eq!(sys_condvar_signal(inner, 0), Some(None));
    assert_eq!(sys_condvar_signal(inner, 1), None);
}

#[test]
fn process_calls() {
    let (mut a, mut mem) = machine();
    let mut procs = BTreeMap::new();
    let mut parent = process_with_page(&mut a, &mut mem);
    parent.inner.children = vec![2, 3];
    insert_into_pid2process(&mut procs, 1, parent);
    insert_into_pid2process(&mut procs, 2, process(2, 1, &mut a, &mut mem));
    insert_into_pid2process(&mut procs, 3, process(3, 1, &mut a, &mut mem));
    let mut p = Processor::new();
    p.set_current(t(1, 0));
    assert_eq!(sys_getpid(&p), 1);
    assert_eq!(sys_get_time(123_456), 12);
    // no child exited yet
    assert_eq!(sys_waitpid(&p, &mut procs, &mut mem, -1, 0x4020), (-2, None));
    assert_eq!(sys_waitpid(&p, &mut procs, &mut mem, 9, 0x4020), (-1, None));
    // child 3 exits
    let mut q = Processor::new();
    q.set_current(t(3, 0));
    assert!(sys_exit(&mut q, &mut procs, 42, 1) == ExitOutcome::RunNext);
    assert_eq!(sys_waitpid(&p, &mut procs, &mut mem, 2, 0x4020), (-2, None));
    assert_eq!(sys_waitpid(&p, &mut procs, &mut mem, -1, 0x4020), (3, Some(42)));
    assert_eq!(user_bytes(&procs[&1], &mem, 0x4020, 4), 42i32.to_le_bytes().to_vec());
    assert!(procs.get(&3).is_none());
    assert_eq!(procs.get(&1).unwrap().inner.children, vec![2]);
    assert_eq!(sys_kill(&mut procs, 2, SIGINT), 0);
    assert_eq!(procs.get(&2).unwrap().inner.signals.bits(), SIGINT);
    assert_eq!(sys_kill(&mut procs, 2, 3), -1);
    assert_eq!(sys_kill(&mut procs, 3, SIGINT), -1);
    let mut m = Manager::new();
    assert_eq!(sys_yield(&mut p, &mut m, &mut procs), 0);
    assert_eq!(m.fetch(), Some(t(1, 0)));
}

#[test]
fn thread_calls() {
    let (mut a, mut mem) = machine();
    let mut procs = BTreeMap::new();
    insert_into_pid2process(&mut procs, 1, process(1, 1, &mut a, &mut mem));
    let mut p = Processor::new();
    p.set_current(t(1, 0));
    let mut m = Manager::new();
    assert_eq!(sys_gettid(&p, &procs), 0);
    let kernel = KernelEntry { sstatus: 0x20, satp: 0x8000_0000_0008_0000, kernel_sp: 0xb000, trap_handler: 0x8020_1000 };
    assert_eq!(sys_thread_create(&p, &mut m, &mut procs, 0x1000, 7, 7, kernel, &mut a, &mut mem), 1);
    assert_eq!(sys_thread_create(&p, &mut m, &mut procs, 0x1100, 9, 8, kernel, &mut a, &mut mem), 2);
    assert_eq!(m.fetch(), Some(t(1, 1)));
    let tasks = &procs.get(&1).unwrap().inner.tasks;
    assert_eq!(tasks.len(), 3);
    assert_eq!(tasks[2].unwrap().kstack, 8);
    assert_eq!(tasks[2].unwrap().inner.res.unwrap().ustack_base, 0x1_0000);
    assert!(tasks[2].unwrap().inner.task_status == Status::Ready);
    // thread 2 starts at its entry, on the top of its own user stack, with its argument in a0
    let ms = &procs.get(&1).unwrap().inner.memory_set;
    let trap_va = TRAP_CONTEXT_BASE - 2 * PAGE_SIZE;
    let ppn = ms.translate(VirtAddr::from_usize(trap_va).as_vpn_by_floor()).unwrap().ppn();
    assert_eq!(tasks[2].unwrap().inner.trap_cx_ppn, ppn);
    let top = 0x1_0000 + 2 * (PAGE_SIZE + USER_STACK_SIZE) + USER_STACK_SIZE;
    assert!(ms.translate(VirtPageNum((top - 1) / PAGE_SIZE)).is_some());
    assert_eq!(context_word(&mem, ppn.0, 33), 0x1100);
    assert_eq!(context_word(&mem, ppn.0, 2), top as u64);
    assert_eq!(context_word(&mem, ppn.0, 10), 9);
    assert_eq!(context_word(&mem, ppn.0, 11), 0);
    assert_eq!(context_word(&mem, ppn.0, 35), 0xb000);
    assert_eq!(context_word(&mem, ppn.0, 36), 0x8020_1000);
    assert_eq!(sys_waittid(&p, &mut procs, 0), -1);
    assert_eq!(sys_waittid(&p, &mut procs, 1), -2);
    let mut q = Processor::new();
    q.set_current(t(1, 1));
    sys_exit(&mut q, &mut procs, 5, 0);
    assert_eq!(sys_waittid(&p, &mut procs, 1), 5);
    assert_eq!(sys_waittid(&p, &mut procs, 1), -1);
}

#[test]
fn sleeping_blocks_and_queues_a_timer() {
    let (mut a, mut mem) = machine();
    let mut procs = BTreeMap::new();
    insert_into_pid2process(&mut procs, 1, process(1, 1, &mut a, &mut mem));
    let mut p = Processor::new();
    p.set_current(t(1, 0));
    let mut timers: Vec<CondVar> = Vec::new();
    assert_eq!(sys_sleep(&mut timers, &mut p, &mut procs, 100, 20), t(1, 0));
    assert_eq!(timers, vec![CondVar { expire_ms: 120, task: t(1, 0) }]);
    assert!(procs.get(&1).unwrap().inner.tasks[0].unwrap().inner.task_status == Status::Blocked);
}

#[test]
fn framebuffer_is_mapped_linearly() {
    let (mut a, mut mem) = machine();
    let mut ms = MemorySet::new_bare(&mut a, &mut mem);
    assert_eq!(sys_framebuffer(&mut ms, 0x8100_0000, 3 * PAGE_SIZE, &mut a, &mut mem), FB_VADDR as isize);
    let first = ms.translate(VirtPageNum(FB_VADDR / PAGE_SIZE)).unwrap();
    assert_eq!(first.ppn().0, 0x81000);
    assert!(first.is_writable());
    assert_eq!(ms.translate(VirtPageNum(FB_VADDR / PAGE_SIZE + 2)).unwrap().ppn().0, 0x81002);
    assert!(ms.translate(VirtPageNum(FB_VADDR / PAGE_SIZE + 3)).is_none());
}

#[test]
fn key_pressed() {
    assert_eq!(sys_key_pressed(true), 0);
    assert_eq!(sys_key_pressed(false), 1);
}

#[test]
fn input_events_keyboard_first() {
    assert_eq!(sys_event_get(false, false), Some(EventSource::Keyboard));
    assert_eq!(sys_event_get(false, true), Some(EventSource::Keyboard));
    assert_eq!(sys_event_get(true, false), Some(EventSource::Mouse));
    assert_eq!(sys_event_get(true, true), None);
    assert_eq!(sys_framebuffer_flush(), 0);
}

#[test]
fn time_arguments() {
    assert_eq!(parse_usize(b"123"), Some(123));
    assert_eq!(parse_usize(b"+7"), Some(7));
    assert_eq!(parse_usize(b"+"), None);
    assert_eq!(parse_usize(b""), None);
    assert_eq!(parse_usize(b"1a"), None);
    assert_eq!(parse_usize(b"99999999999999999999999"), None);
    assert_eq!(parse_time_argument("5"), Ok(5000));
    assert_eq!(parse_time_argument("3s"), Ok(3000));
    assert_eq!(parse_time_argument("2m"), Ok(120_000));
    assert_eq!(parse_time_argument("1h"), Ok(3_600_000));
    assert_eq!(parse_time_argument("1d"), Ok(86_400_000));
    assert_eq!(parse_time_argument("4x"), Err("Unsupported time unit"));
    assert_eq!(parse_time_argument("abc"), Err("Invalid number"));
    assert_eq!(parse_time_argument("s"), Err("Invalid number"));
}

#[test]
fn ls_lists_names_after_dot_entries() {
    let mut buf: Vec<u8> = Vec::new();
    for (name, ino) in [(".", 0u32), ("..", 0), ("hello.txt", 3), ("docs", 4)] {
        buf.extend_from_slice(&DirEntry::new(name, ino).as_bytes());
    }
    assert_eq!(dir_listing(&buf), vec!["hello.txt".to_string(), "docs".to_string()]);
    // a partial trailing entry is not listed
    buf.extend_from_slice(&[b'x'; 10]);
    assert_eq!(dir_listing(&buf).len(), 2);
    // only the dot entries: nothing to list
    assert!(dir_listing(&buf[..64]).is_empty());
    assert!(dir_listing(&[]).is_empty());
}

#[test]
fn ls_decides_from_open_and_fstat() {
    assert_eq!(list_step(-1, 0, 0, 0), ListStep::NoSuchFile);
    assert_eq!(list_step(3, -1, 0, 0), ListStep::BadDescriptor);
    assert_eq!(list_step(3, 0, STAT_MODE_REG, 12), ListStep::PrintTarget);
    assert_eq!(list_step(3, 0, STAT_MODE_DIR, 128), ListStep::ReadDirectory(128));
}

/// A process whose page at 0x4000 is mapped, readable and writable
fn process_with_page(a: &mut StackFrameAllocator, mem: &mut PhysMem) -> ProcessControlBlock {
    let mut p = process(1, 1, a, mem);
    let perm = MapPermission::r().union(MapPermission::w()).union(MapPermission::u());
    let area = MapArea::new(VirtAddr(0x4000), VirtAddr(0x5000), MapType::Framed, perm);
    p.inner.memory_set.push(area, None, a, mem);
    p
}

fn context_word(mem: &PhysMem, ppn: usize, w: usize) -> u64 {
    let mut b = [0u8; 8];
    for (i, x) in b.iter_mut().enumerate() {
        *x = mem.read_byte(ppn, 8 * w + i);
    }
    u64::from_le_bytes(b)
}

fn user_bytes(p: &ProcessControlBlock, mem: &PhysMem, va: usize, n: usize) -> Vec<u8> {
    let ppn = p.inner.memory_set.translate(VirtPageNum(va / PAGE_SIZE)).unwrap().ppn().0;
    (0..n).map(|i| mem.read_byte(ppn, va % PAGE_SIZE + i)).collect()
}

#[test]
fn getcwd_copies_the_working_directory() {
    let (mut a, mut mem) = machine();
    let mut p = process_with_page(&mut a, &mut mem);
    p.inner.cwd = String::from("/home/user");
    assert_eq!(sys_getcwd(&p.inner, &mut mem, 0x4010, 64), 10);
    assert_eq!(user_bytes(&p, &mem, 0x4010, 10), b"/home/user".to_vec());
    // too small a buffer: nothing is written
    assert_eq!(sys_getcwd(&p.inner, &mut mem, 0x4100, 4), -1);
    assert_eq!(user_bytes(&p, &mem, 0x4100, 4), vec![0u8; 4]);
}

#[test]
fn fstat_writes_the_status() {
    let (mut a, mut mem) = machine();
    let p = process_with_page(&mut a, &mut mem);
    let st = Stat { dev: 0, ino: 7, mode: STAT_MODE_REG, off: 0x0102, size: 300 };
    assert_eq!(st.to_bytes().len(), 32);
    assert_eq!(sys_fstat(&p.inner, &mut mem, 9, 0x4000, st), -1);
    assert_eq!(user_bytes(&p, &mem, 0x4000, 32), vec![0u8; 32]);
    assert_eq!(sys_fstat(&p.inner, &mut mem, 1, 0x4000, st), 0);
    let b = user_bytes(&p, &mem, 0x4000, 32);
    assert_eq!(&b[0..4], &[0, 0, 0, 0]);
    assert_eq!(&b[4..8], &7u32.to_le_bytes());
    assert_eq!(&b[8..12], &STAT_MODE_REG.to_le_bytes());
    assert_eq!(&b[16..24], &0x0102u64.to_le_bytes());
    assert_eq!(&b[24..28], &300u32.to_le_bytes());
}

#[test]
fn input_events_are_queued_as_words() {
    let e = InputEvent { event_type: 1, code: 0x1e, value: 1 };
    assert_eq!(encode_event(e), 0x0001_001e_0000_0001);
    let mut q = EventQueue::new();
    assert!(q.is_empty());
    assert_eq!(q.read_event(), None);
    assert!(!q.handle_irq(&Vec::new()));
    let f = InputEvent { event_type: 2, code: 0, value: 0xffff_fffe };
    assert!(q.handle_irq(&vec![e, f]));
    assert!(!q.is_empty());
    assert_eq!(q.read_event(), Some(0x0001_001e_0000_0001));
    assert_eq!(q.read_event(), Some(0x0002_0000_ffff_fffe));
    assert_eq!(q.read_event(), None);
}

#[test]
fn serial_bytes_are_read_in_order() {
    let mut b = ReadBuffer::new();
    assert!(b.is_read_buffer_empty());
    assert_eq!(sys_key_pressed(b.is_read_buffer_empty()), 0);
    assert!(b.handle_irq(&b"hi".to_vec()));
    assert_eq!(sys_key_pressed(b.is_read_buffer_empty()), 1);
    assert_eq!(b.read(), Some(b'h'));
    assert_eq!(b.read(), Some(b'i'));
    assert_eq!(b.read(), None);
}

#[test]
fn pipe_opens_both_ends() {
    let (mut a, mut mem) = machine();
    let mut p = process_with_page(&mut a, &mut mem);
    // descriptor 1 is free: the read end takes it, the write end comes last
    p.inner.fd_table[1] = None;
    assert_eq!(sys_pipe(&mut p.inner, &mut mem, 4, 0x4008), 0);
    assert_eq!(p.inner.fd_table.len(), 4);
    assert_eq!(p.inner.fd_table[1], Some(FileHandle { kind: FileKind::Pipe(4), readable: true, writable: false }));
    assert_eq!(p.inner.fd_table[3], Some(FileHandle { kind: FileKind::Pipe(4), readable: false, writable: true }));
    assert_eq!(user_bytes(&p, &mem, 0x4008, 8), 1u64.to_le_bytes().to_vec());
    assert_eq!(user_bytes(&p, &mem, 0x4010, 8), 3u64.to_le_bytes().to_vec());
}

#[test]
fn semaphore_blocks_and_wakes_threads() {
    let (mut a, mut mem) = machine();
    let mut procs = BTreeMap::new();
    let mut pcb = process(1, 2, &mut a, &mut mem);
    assert_eq!(sys_semaphore_create(&mut pcb.inner, 0), 0);
    insert_into_pid2process(&mut procs, 1, pcb);
    let mut m = Manager::new();
    // thread 1 takes a resource that is not there: it is queued and blocked
    let mut q = Processor::new();
    q.set_current(t(1, 1));
    assert_eq!(semaphore_down(&mut q, &mut procs, 0), (0, Some(t(1, 1))));
    assert!(q.current().is_none());
    assert!(procs[&1].inner.tasks[1].unwrap().inner.task_status == Status::Blocked);
    // thread 0 gives one back: thread 1 is ready and queued again
    let mut p = Processor::new();
    p.set_current(t(1, 0));
    assert_eq!(semaphore_down(&mut p, &mut procs, 5), (-1, None));
    assert_eq!(p.current(), Some(t(1, 0)));
    assert_eq!(semaphore_up(&p, &mut procs, &mut m, 0), (0, Some(t(1, 1))));
    assert!(procs[&1].inner.tasks[1].unwrap().inner.task_status == Status::Ready);
    assert_eq!(m.fetch(), Some(t(1, 1)));
    // nobody waits any more: the count only goes up
    assert_eq!(semaphore_up(&p, &mut procs, &mut m, 0), (0, None));
    assert_eq!(m.fetch(), None);
    assert_eq!(semaphore_up(&p, &mut procs, &mut m, 3), (-1, None));
    // a resource is there now: down does not block
    assert_eq!(semaphore_down(&mut p, &mut procs, 0), (0, None));
    assert_eq!(p.current(), Some(t(1, 0)));
}

#[test]
fn condvar_wait_releases_the_mutex_and_blocks() {
    let (mut a, mut mem) = machine();
    let mut procs = BTreeMap::new();
    let mut pcb = process(1, 2, &mut a, &mut mem);
    assert_eq!(sys_condvar_create(&mut pcb.inner), 0);
    assert_eq!(sys_mutex_create(&mut pcb.inner, true), 0);
    assert_eq!(sys_mutex_lock(&mut pcb.inner, 0, t(1, 0)), Some(LockOutcome::Acquired));
    assert_eq!(sys_mutex_lock(&mut pcb.inner, 0, t(1, 1)), Some(LockOutcome::Blocked));
    insert_into_pid2process(&mut procs, 1, pcb);
    let mut m = Manager::new();
    let mut p = Processor::new();
    p.set_current(t(1, 0));
    assert_eq!(condvar_wait(&mut p, &mut procs, &mut m, 0, 7), (-1, None));
    assert_eq!(p.current(), Some(t(1, 0)));
    // the mutex goes to thread 1, which is woken; thread 0 blocks on the variable
    assert_eq!(condvar_wait(&mut p, &mut procs, &mut m, 0, 0), (0, Some(t(1, 0))));
    assert!(p.current().is_none());
    assert_eq!(m.fetch(), Some(t(1, 1)));
    assert!(procs[&1].inner.tasks[0].unwrap().inner.task_status == Status::Blocked);
    assert!(procs[&1].inner.tasks[1].unwrap().inner.task_status == Status::Ready);
    assert_eq!(sys_condvar_signal(&mut procs.get_mut(&1).unwrap().inner, 0), Some(Some(t(1, 0))));
}

#[test]
fn chdir_walks_the_file_system() {
    let total: u32 = 4096;
    let mut efs = EasyFileSystem::create(BlockCacheManager::new(BlockDevice::new(total as usize)), total, 1);
    let first_data = efs.data_area_start_block;
    // the root holds "d" (inode 2), a directory holding "f" (inode 3), a file
    let entries = [(0u32, vec![("d", 2u32)]), (2u32, vec![("f", 3u32)])];
    for (k, (ino, list)) in entries.iter().enumerate() {
        let mut d = DiskInode::new(DiskInodeKind::Directory);
        let size = (list.len() * DIRENT_SIZE) as u32;
        d.increase_size(size, vec![first_data + k as u32], &mut efs.block_device);
        for (i, (name, n)) in list.iter().enumerate() {
            d.write_at(i * DIRENT_SIZE, &DirEntry::new(name, *n).as_bytes(), &mut efs.block_device);
        }
        let (b, o) = efs.disk_inode_pos(*ino);
        efs.block_device.modify(b as usize, o, &d.to_bytes());
    }
    let (b, o) = efs.disk_inode_pos(3);
    efs.block_device.modify(b as usize, o, &DiskInode::new(DiskInodeKind::File).to_bytes());
    let (mut a, mut mem) = machine();
    let mut pcb = process(1, 1, &mut a, &mut mem);
    assert_eq!(chdir(&mut pcb.inner, &mut efs, "d"), 0);
    assert_eq!(pcb.inner.cwd, "/d");
    assert_eq!(chdir(&mut pcb.inner, &mut efs, "f"), -2);
    assert_eq!(chdir(&mut pcb.inner, &mut efs, "../e"), -1);
    assert_eq!(pcb.inner.cwd, "/d");
    // a path that goes on through the file "f" leads nowhere
    assert_eq!(chdir(&mut pcb.inner, &mut efs, "f/g"), -1);
    assert_eq!(pcb.inner.cwd, "/d");
    assert_eq!(chdir(&mut pcb.inner, &mut efs, ".."), 0);
    assert_eq!(pcb.inner.cwd, "/");
}

#[test]
fn reading_a_file_into_user_memory() {
    let total: u32 = 4096;
    let mut efs = EasyFileSystem::create(BlockCacheManager::new(BlockDevice::new(total as usize)), total, 1);
    // inode 1 is a file of 700 bytes over two data blocks
    let mut d = DiskInode::new(DiskInodeKind::File);
    let first = efs.data_area_start_block;
    d.increase_size(700, vec![first, first + 1], &mut efs.block_device);
    let content: Vec<u8> = (0..700u32).map(|i| (i % 251) as u8).collect();
    assert_eq!(d.write_at(0, &content, &mut efs.block_device), 700);
    let (b, o) = efs.disk_inode_pos(1);
    efs.block_device.modify(b as usize, o, &d.to_bytes());
    let (blk, off) = efs.disk_inode_pos(1);
    let inode = lemon_core::easy_fs::vfs::Inode::new(blk, off);
    let (mut a, mut mem) = machine();
    let p = process_with_page(&mut a, &mut mem);
    let pt = p.inner.memory_set.page_table();
    let mut f = OSInode::new(true, false, inode);
    f.set_offset(500);
    // 100 bytes asked, 100 read
    assert_eq!(f.read(&mut efs, pt, &mut mem, 0x4100, 100), 100);
    assert_eq!(user_bytes(&p, &mem, 0x4100, 100), content[500..600].to_vec());
    assert_eq!(f.offset(), 600);
    // 200 bytes asked, the 100 left read
    assert_eq!(f.read(&mut efs, pt, &mut mem, 0x4400, 200), 100);
    assert_eq!(user_bytes(&p, &mem, 0x4400, 100), content[600..700].to_vec());
    assert_eq!(user_bytes(&p, &mem, 0x4464, 4), vec![0u8; 4]);
    // at the end nothing is read
    assert_eq!(f.read(&mut efs, pt, &mut mem, 0x4400, 10), 0);
    assert_eq!(f.offset(), 700);
}

#[test]
fn writing_user_memory_into_a_file() {
    let total: u32 = 4096;
    let mut efs = EasyFileSystem::create(BlockCacheManager::new(BlockDevice::new(total as usize)), total, 1);
    let (b, o) = efs.disk_inode_pos(1);
    efs.block_device.modify(b as usize, o, &DiskInode::new(DiskInodeKind::File).to_bytes());
    let (mut a, mut mem) = machine();
    let mut p = process_with_page(&mut a, &mut mem);
    p.inner.cwd = String::from("/some/where");
    // put a message in user memory through getcwd
    assert_eq!(sys_getcwd(&p.inner, &mut mem, 0x4010, 64), 11);
    let pt = p.inner.memory_set.page_table();
    let mut f = OSInode::new(true, true, lemon_core::easy_fs::vfs::Inode::new(b, o));
    assert_eq!(f.write(&mut efs, pt, &mem, 0x4010, 11), 11);
    assert_eq!(f.offset(), 11);
    assert_eq!(f.write(&mut efs, pt, &mem, 0x4010, 5), 5);
    assert_eq!(f.file_size(&mut efs), 16);
    f.set_offset(0);
    assert_eq!(f.read_all(&mut efs), b"/some/where/some".to_vec());
}

#[test]
fn a_recycled_thread_id_keeps_the_other_slots() {
    let (mut a, mut mem) = machine();
    let mut procs = BTreeMap::new();
    let mut pcb = process(1, 3, &mut a, &mut mem);
    pcb.inner.tasks[1] = None;
    pcb.inner.dealloc_tid(1);
    insert_into_pid2process(&mut procs, 1, pcb);
    let mut p = Processor::new();
    p.set_current(t(1, 0));
    let mut m = Manager::new();
    let kernel = KernelEntry { sstatus: 0x20, satp: 0x8000_0000_0008_0000, kernel_sp: 0xb000, trap_handler: 0x8020_1000 };
    assert_eq!(sys_thread_create(&p, &mut m, &mut procs, 0x1000, 7, 9, kernel, &mut a, &mut mem), 1);
    let tasks = &procs.get(&1).unwrap().inner.tasks;
    assert_eq!(tasks.len(), 3);
    assert_eq!(tasks[1].unwrap().kstack, 9);
    assert!(tasks[2].is_some());
    assert_eq!(tasks[2].unwrap().kstack, 2);
}

#[test]
fn mutexes_and_signals_wake_threads() {
    let (mut a, mut mem) = machine();
    let mut procs = BTreeMap::new();
    let mut pcb = process(1, 3, &mut a, &mut mem);
    assert_eq!(sys_condvar_create(&mut pcb.inner), 0);
    assert_eq!(sys_mutex_create(&mut pcb.inner, true), 0);
    assert_eq!(sys_mutex_create(&mut pcb.inner, false), 1);
    insert_into_pid2process(&mut procs, 1, pcb);
    let mut m = Manager::new();
    let mut p0 = Processor::new();
    p0.set_current(t(1, 0));
    assert_eq!(mutex_lock(&mut p0, &mut procs, &mut m, 0), (0, None));
    assert_eq!(mutex_lock(&mut p0, &mut procs, &mut m, 9), (-1, None));
    // thread 1 blocks on the held blocking mutex
    let mut p1 = Processor::new();
    p1.set_current(t(1, 1));
    assert_eq!(mutex_lock(&mut p1, &mut procs, &mut m, 0), (0, Some(t(1, 1))));
    assert!(procs[&1].inner.tasks[1].unwrap().inner.task_status == Status::Blocked);
    // thread 0 waits on the variable: the mutex goes to thread 1, woken
    assert_eq!(condvar_wait(&mut p0, &mut procs, &mut m, 0, 0), (0, Some(t(1, 0))));
    assert_eq!(m.fetch(), Some(t(1, 1)));
    assert!(procs[&1].inner.tasks[1].unwrap().inner.task_status == Status::Ready);
    // thread 1 signals: thread 0 is woken, then takes the mutex back after thread 1 unlocks it
    p1.set_current(t(1, 1));
    assert_eq!(condvar_signal(&p1, &mut procs, &mut m, 0), (0, Some(t(1, 0))));
    assert!(procs[&1].inner.tasks[0].unwrap().inner.task_status == Status::Ready);
    assert_eq!(m.fetch(), Some(t(1, 0)));
    assert_eq!(condvar_signal(&p1, &mut procs, &mut m, 0), (0, None));
    assert_eq!(condvar_signal(&p1, &mut procs, &mut m, 4), (-1, None));
    assert_eq!(mutex_unlock(&p1, &mut procs, &mut m, 0), (0, None));
    p0.set_current(t(1, 0));
    assert_eq!(mutex_lock(&mut p0, &mut procs, &mut m, 0), (0, None));
    // a spinning mutex held makes the thread yield
    let mut p2 = Processor::new();
    p2.set_current(t(1, 2));
    assert_eq!(mutex_lock(&mut p0, &mut procs, &mut m, 1), (0, None));
    p0.set_current(t(1, 0));
    assert_eq!(mutex_lock(&mut p2, &mut procs, &mut m, 1), (0, Some(t(1, 2))));
    assert!(procs[&1].inner.tasks[2].unwrap().inner.task_status == Status::Ready);
    assert_eq!(m.fetch(), Some(t(1, 2)));
}

#[test]
fn open_path_opens_and_empties_files() {
    let total: u32 = 4096;
    let mut efs = EasyFileSystem::create(BlockCacheManager::new(BlockDevice::new(total as usize)), total, 1);
    // the root holds "d" (inode 2), a directory holding "f" (inode 3), a file;
    // the directories' blocks are taken from the data bitmap
    let entries = [(0u32, vec![("d", 2u32)]), (2u32, vec![("f", 3u32)])];
    for (ino, list) in entries.iter() {
        let mut d = DiskInode::new(DiskInodeKind::Directory);
        let size = (list.len() * DIRENT_SIZE) as u32;
        let block = efs.alloc_data();
        d.increase_size(size, vec![block], &mut efs.block_device);
        for (i, (name, n)) in list.iter().enumerate() {
            d.write_at(i * DIRENT_SIZE, &DirEntry::new(name, *n).as_bytes(), &mut efs.block_device);
        }
        let (b, o) = efs.disk_inode_pos(*ino);
        efs.block_device.modify(b as usize, o, &d.to_bytes());
    }
    let (b, o) = efs.disk_inode_pos(3);
    efs.block_device.modify(b as usize, o, &DiskInode::new(DiskInodeKind::File).to_bytes());
    let f = Inode::new(b, o);
    assert_eq!(f.write_at(0, b"hello", &mut efs), 5);
    let (mut a, mut mem) = machine();
    let mut pcb = process(1, 1, &mut a, &mut mem);
    // opened for reading: the lowest free descriptor, the file kept
    assert_eq!(open_path(&mut pcb.inner, &mut efs, "/d/f", O_RDONLY), 3);
    assert_eq!(pcb.inner.fd_table[3], Some(FileHandle { kind: FileKind::Inode(3), readable: true, writable: false }));
    assert_eq!(f.file_size(&mut efs), 5);
    // a bit that is no flag, or nothing at the path: -1
    assert_eq!(open_path(&mut pcb.inner, &mut efs, "/d/f", 4), -1);
    assert_eq!(open_path(&mut pcb.inner, &mut efs, "/d/g", O_RDONLY), -1);
    assert_eq!(open_path(&mut pcb.inner, &mut efs, "/d/f/g", O_RDONLY), -1);
    assert_eq!(pcb.inner.fd_table.len(), 4);
    // from the working directory, for writing and emptied
    assert_eq!(chdir(&mut pcb.inner, &mut efs, "d"), 0);
    assert_eq!(open_path(&mut pcb.inner, &mut efs, "f", O_WRONLY | O_TRUNC), 4);
    assert_eq!(pcb.inner.fd_table[4], Some(FileHandle { kind: FileKind::Inode(3), readable: true, writable: true }));
    assert_eq!(f.file_size(&mut efs), 0);
    // creating where the directory part does not exist either: -1
    assert_eq!(open_path(&mut pcb.inner, &mut efs, "/x/y", O_CREATE), -1);
    // a directory opened with O_CREATE is not emptied
    assert_eq!(open_path(&mut pcb.inner, &mut efs, "/d", O_CREATE | O_RDWR), 5);
    assert_eq!(pcb.inner.fd_table[5], Some(FileHandle { kind: FileKind::Inode(2), readable: true, writable: true }));
}
