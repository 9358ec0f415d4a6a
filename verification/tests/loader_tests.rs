use std::collections::BTreeMap;

use lemon_core::mm::address::{PhysMem, PhysPageNum, VirtAddr, VirtPageNum, PAGE_SIZE, TRAMPOLINE};
use lemon_core::mm::elf::{elf_load_segments, ElfSegment};
use lemon_core::mm::frame_allocator::StackFrameAllocator;
use lemon_core::mm::memory_set::{segments_fit, MemorySet, MapPermission};
use lemon_core::mm::page_table::PTE_V;
use lemon_core::mm::{push_args, write_user_bytes};
use lemon_core::syscall::process::{run_exec, sys_exec, sys_fork};
use lemon_core::task::id::RecycleAllocator;
use lemon_core::task::manager::{fetch, Manager};
use lemon_core::task::pcb::{KernelEntry, ProcessControlBlock};
use lemon_core::task::processor::{run_next, Processor};
use lemon_core::task::signal::{SIGILL, SIGSEGV};
use lemon_core::task::tcb::{Status, TaskRef, TaskUserRes, TRAP_CONTEXT_BASE, USER_STACK_SIZE};
use lemon_core::task::{exec_program, init, ExitOutcome};
use lemon_core::easy_fs::block_cache::BlockCacheManager;
use lemon_core::easy_fs::block_dev::BlockDevice;
use lemon_core::easy_fs::efs::EasyFileSystem;
use lemon_core::easy_fs::layout::{DirEntry, DiskInode, DiskInodeKind, DIRENT_SIZE};
use lemon_core::trap::{finish_trap, set_syscall_result, trap_action, user_handler, TrapAction, TrapCause, CX_KERNEL_SATP, CX_KERNEL_SP, CX_SEPC, CX_SSTATUS, CX_TRAP_HANDLER};

const STRAMPOLINE: usize = 0x8020_0000;

fn allocator(l: usize, r: usize) -> StackFrameAllocator {
    let mut a = StackFrameAllocator::new();
    a.init(PhysPageNum(l), PhysPageNum(r));
    a
}

fn user_byte(ms: &MemorySet, mem: &PhysMem, va: usize) -> u8 {
    let e = ms.translate(VirtPageNum(va / PAGE_SIZE)).unwrap();
    mem.read_byte(e.ppn().0, va % PAGE_SIZE)
}

fn context_word(mem: &PhysMem, ppn: usize, w: usize) -> u64 {
    let mut b = [0u8; 8];
    for (i, x) in b.iter_mut().enumerate() {
        *x = mem.read_byte(ppn, 8 * w + i);
    }
    u64::from_le_bytes(b)
}

fn user_u64(ms: &MemorySet, mem: &PhysMem, va: usize) -> u64 {
    let mut b = [0u8; 8];
    for (i, x) in b.iter_mut().enumerate() {
        *x = user_byte(ms, mem, va + i);
    }
    u64::from_le_bytes(b)
}

/// A 64-bit little-endian ELF file: its header, then its program headers
/// `(type, flags, offset, vaddr, file size, memory size)`, then `payload`.
fn elf(entry: u64, phs: &[(u32, u32, u64, u64, u64, u64)], payload: &[u8]) -> Vec<u8> {
    let mut d: Vec<u8> = Vec::new();
    d.extend_from_slice(&[0x7f, b'E', b'L', b'F', 2, 1, 1, 0]);
    d.extend_from_slice(&[0u8; 8]);
    d.extend_from_slice(&2u16.to_le_bytes());
    d.extend_from_slice(&0xf3u16.to_le_bytes());
    d.extend_from_slice(&1u32.to_le_bytes());
    d.extend_from_slice(&entry.to_le_bytes());
    d.extend_from_slice(&64u64.to_le_bytes());
    d.extend_from_slice(&0u64.to_le_bytes());
    d.extend_from_slice(&0u32.to_le_bytes());
    d.extend_from_slice(&64u16.to_le_bytes());
    d.extend_from_slice(&56u16.to_le_bytes());
    d.extend_from_slice(&(phs.len() as u16).to_le_bytes());
    d.extend_from_slice(&64u16.to_le_bytes());
    d.extend_from_slice(&0u16.to_le_bytes());
    d.extend_from_slice(&0u16.to_le_bytes());
    assert_eq!(d.len(), 64);
    for &(ty, flags, offset, vaddr, file_size, mem_size) in phs {
        d.extend_from_slice(&ty.to_le_bytes());
        d.extend_from_slice(&flags.to_le_bytes());
        d.extend_from_slice(&offset.to_le_bytes());
        d.extend_from_slice(&vaddr.to_le_bytes());
        d.extend_from_slice(&vaddr.to_le_bytes());
        d.extend_from_slice(&file_size.to_le_bytes());
        d.extend_from_slice(&mem_size.to_le_bytes());
        d.extend_from_slice(&4096u64.to_le_bytes());
    }
    d.extend_from_slice(payload);
    d
}

/// An application: a text segment at 0x1000 holding "0123456789", readable
/// and executable, 0x1800 bytes in memory; a note that is not loaded; and a
/// writable data segment at 0x5000 holding "data".
fn app() -> Vec<u8> {
    let payload_at = 64 + 3 * 56;
    let mut payload = b"0123456789".to_vec();
    payload.extend_from_slice(b"data");
    elf(
        0x1004,
        &[
            (1, 5, payload_at, 0x1000, 10, 0x1800),
            (4, 4, 0, 0, 0, 0),
            (1, 6, payload_at + 10, 0x5000, 4, 0x100),
        ],
        &payload,
    )
}

#[test]
fn elf_segments_lists_loadable_headers() {
    let data = app();
    let segs = elf_load_segments(&data).unwrap();
    assert_eq!(
        segs,
        vec![
            ElfSegment {
                vaddr: 0x1000,
                mem_size: 0x1800,
                offset: 232,
                file_size: 10,
                readable: true,
                writable: false,
                executable: true,
            },
            ElfSegment {
                vaddr: 0x5000,
                mem_size: 0x100,
                offset: 242,
                file_size: 4,
                readable: true,
                writable: true,
                executable: false,
            },
        ]
    );
    assert!(elf_load_segments(b"not an elf file at all, just some bytes").is_none());
    assert!(elf_load_segments(&elf(0, &[(0x1234, 4, 0, 0, 0, 0)], &[])).is_none());
    assert_eq!(elf_load_segments(&elf(0, &[(4, 4, 0, 0, 0, 0)], &[])), Some(vec![]));
}

#[test]
fn from_elf_image_maps_segments_with_their_bytes() {
    let mut mem = PhysMem::new(0x200);
    let mut a = allocator(0x100, 0x200);
    let data = app();
    let (ms, ustack_base, entry) = MemorySet::from_elf_image(&data, STRAMPOLINE, &mut a, &mut mem).unwrap();
    assert_eq!(entry, 0x1004);
    // a guard page above the last segment, which ends at page 6
    assert_eq!(ustack_base, 6 * PAGE_SIZE + PAGE_SIZE);
    assert_eq!(ms.translate(VirtPageNum(1)).unwrap().flags, 16 | 2 | 8 | PTE_V);
    assert_eq!(ms.translate(VirtPageNum(5)).unwrap().flags, 16 | 2 | 4 | PTE_V);
    for (i, b) in b"0123456789".iter().enumerate() {
        assert_eq!(user_byte(&ms, &mem, 0x1000 + i), *b);
    }
    assert_eq!(user_byte(&ms, &mem, 0x100a), 0);
    assert_eq!(user_byte(&ms, &mem, 0x2000), 0);
    assert_eq!(user_byte(&ms, &mem, 0x5000), b'd');
    assert_eq!(user_byte(&ms, &mem, 0x5003), b'a');
    assert_eq!(user_byte(&ms, &mem, 0x5004), 0);
    assert!(ms.translate(VirtPageNum(3)).is_none());
    assert!(ms.translate(VirtPageNum(0)).is_none());
    let tramp = ms.translate(VirtAddr::from_usize(TRAMPOLINE).as_vpn_by_floor()).unwrap();
    assert_eq!(tramp.ppn().0, STRAMPOLINE / PAGE_SIZE);
    // a root and three pages
    assert_eq!(a.available_frames(), 0x100 - 4);
}

#[test]
fn from_elf_maps_the_stack_and_the_trap_context_too() {
    let mut mem = PhysMem::new(0x200);
    let mut a = allocator(0x100, 0x200);
    let data = app();
    let (ms, ustack_base, entry) = MemorySet::from_elf(&data, STRAMPOLINE, &mut a, &mut mem).unwrap();
    assert_eq!(entry, 0x1004);
    assert_eq!(ustack_base, 7 * PAGE_SIZE);
    for (i, b) in b"0123456789".iter().enumerate() {
        assert_eq!(user_byte(&ms, &mem, 0x1000 + i), *b);
    }
    // the user stack: two pages from the stack base, readable and writable from user mode
    assert_eq!(ms.translate(VirtPageNum(7)).unwrap().flags, 16 | 2 | 4 | PTE_V);
    assert_eq!(ms.translate(VirtPageNum(8)).unwrap().flags, 16 | 2 | 4 | PTE_V);
    assert!(ms.translate(VirtPageNum(9)).is_none());
    // the trap context page, below the trampoline
    let tc = ms.translate(VirtAddr::from_usize(TRAP_CONTEXT_BASE).as_vpn_by_floor()).unwrap();
    assert_eq!(tc.flags, 2 | 4 | PTE_V);
    // a root, three pages, two stack pages and the trap context page
    assert_eq!(a.available_frames(), 0x100 - 7);
}

#[test]
fn from_elf_refuses_what_cannot_be_loaded() {
    let mut mem = PhysMem::new(0x200);
    let mut a = allocator(0x100, 0x200);
    // not an ELF file
    assert!(MemorySet::from_elf(&[0u8; 100], STRAMPOLINE, &mut a, &mut mem).is_none());
    // two segments on the same page
    let overlapping = elf(0, &[(1, 4, 176, 0x1000, 0, 0x100), (1, 4, 176, 0x1800, 0, 0x100)], &[]);
    assert!(MemorySet::from_elf(&overlapping, STRAMPOLINE, &mut a, &mut mem).is_none());
    // bytes past the end of the file
    let short = elf(0, &[(1, 4, 120, 0x1000, 100, 0x1000)], b"abc");
    assert!(MemorySet::from_elf(&short, STRAMPOLINE, &mut a, &mut mem).is_none());
    // more bytes than pages
    let long = elf(0, &[(1, 4, 120, 0x1000, 3, 0)], b"abc");
    assert!(MemorySet::from_elf(&long, STRAMPOLINE, &mut a, &mut mem).is_none());
    // an unknown program header type
    let odd = elf(0, &[(0x1234, 4, 0, 0, 0, 0)], &[]);
    assert!(MemorySet::from_elf(&odd, STRAMPOLINE, &mut a, &mut mem).is_none());
    // nothing was handed out
    assert_eq!(a.available_frames(), 0x100);
    // too few frames: a root and three pages are needed
    let mut few = allocator(0x100, 0x103);
    assert!(MemorySet::from_elf(&app(), STRAMPOLINE, &mut few, &mut mem).is_none());
    assert_eq!(few.available_frames(), 3);
}

#[test]
fn segments_fit_checks_each_segment_and_the_frames() {
    let s = |vaddr: u64, mem_size: u64| ElfSegment {
        vaddr,
        mem_size,
        offset: 0,
        file_size: 0,
        readable: true,
        writable: false,
        executable: false,
    };
    // a root and one page each
    assert!(segments_fit(&vec![s(0x1000, 0x1000), s(0x2000, 0x10)], 0, 3));
    assert!(!segments_fit(&vec![s(0x1000, 0x1000), s(0x2000, 0x10)], 0, 2));
    assert!(!segments_fit(&vec![s(0x1000, 0x1001), s(0x2000, 0x10)], 0, 100));
    assert!(!segments_fit(&vec![s(u64::MAX, 1)], 0, 100));
    assert!(!segments_fit(&vec![s(TRAMPOLINE as u64, 1)], 0, 100));
    assert!(segments_fit(&vec![], 0, 1));
    assert!(!segments_fit(&vec![], 0, 0));
}

#[test]
fn duplicate_copies_every_framed_page() {
    let mut mem = PhysMem::new(0x200);
    let mut a = allocator(0x100, 0x200);
    let data = app();
    let (ms, _, _) = MemorySet::from_elf_image(&data, STRAMPOLINE, &mut a, &mut mem).unwrap();
    let copy = ms.duplicate(STRAMPOLINE, &mut a, &mut mem);
    for va in [0x1000usize, 0x1009, 0x100a, 0x2fff, 0x5000, 0x5003] {
        assert_eq!(user_byte(&copy, &mem, va), user_byte(&ms, &mem, va));
    }
    let f = ms.translate(VirtPageNum(1)).unwrap().ppn().0;
    let g = copy.translate(VirtPageNum(1)).unwrap().ppn().0;
    assert!(f != g);
    assert_eq!(copy.translate(VirtPageNum(1)).unwrap().flags, ms.translate(VirtPageNum(1)).unwrap().flags);
    assert!(copy.translate(VirtPageNum(3)).is_none());
    // writing to the copy leaves the copied space alone
    write_user_bytes(copy.page_table(), &mut mem, 0x1000, b"XY");
    assert_eq!(user_byte(&copy, &mem, 0x1000), b'X');
    assert_eq!(user_byte(&ms, &mem, 0x1000), b'0');
    // a root and three pages again
    assert_eq!(a.available_frames(), 0x100 - 8);
}

#[test]
fn push_args_lays_out_the_arguments() {
    let mut mem = PhysMem::new(0x200);
    let mut a = allocator(0x100, 0x200);
    let mut ms = MemorySet::new_bare(&mut a, &mut mem);
    ms.insert_framed_area(VirtAddr(0x10000), VirtAddr(0x12000), MapPermission::r(), &mut a, &mut mem);
    let args = vec![b"ab".to_vec(), b"xyz".to_vec()];
    let (sp, argv) = push_args(ms.page_table(), &mut mem, 0x12000, &args);
    assert_eq!(argv, 0x12000 - 3 * 8);
    assert_eq!(sp, argv - 3 - 4);
    assert_eq!(user_u64(&ms, &mem, argv), (argv - 3) as u64);
    assert_eq!(user_u64(&ms, &mem, argv + 8), (argv - 7) as u64);
    assert_eq!(user_u64(&ms, &mem, argv + 16), 0);
    let s: Vec<u8> = (0..3).map(|i| user_byte(&ms, &mem, argv - 3 + i)).collect();
    assert_eq!(s, b"ab\0".to_vec());
    let t: Vec<u8> = (0..4).map(|i| user_byte(&ms, &mem, argv - 7 + i)).collect();
    assert_eq!(t, b"xyz\0".to_vec());
    assert_eq!(user_byte(&ms, &mem, sp - 1), 0);
    let (sp0, argv0) = push_args(ms.page_table(), &mut mem, 0x11000, &vec![]);
    assert_eq!((sp0, argv0), (0x11000 - 8, 0x11000 - 8));
    assert_eq!(user_u64(&ms, &mem, argv0), 0);
}

#[test]
fn user_resources_map_the_stack_and_the_trap_context() {
    let mut mem = PhysMem::new(0x200);
    let mut a = allocator(0x100, 0x200);
    let mut ms = MemorySet::new_bare(&mut a, &mut mem);
    let res = TaskUserRes { tid: 1, ustack_base: 0x10000 };
    res.alloc_user_res(&mut ms, &mut a, &mut mem);
    let bottom = 0x10000 + PAGE_SIZE + USER_STACK_SIZE;
    assert!(ms.translate(VirtPageNum(bottom / PAGE_SIZE - 1)).is_none());
    assert_eq!(ms.translate(VirtPageNum(bottom / PAGE_SIZE)).unwrap().flags, 2 | 4 | 16 | PTE_V);
    assert_eq!(ms.translate(VirtPageNum(bottom / PAGE_SIZE + 1)).unwrap().flags, 2 | 4 | 16 | PTE_V);
    assert!(ms.translate(VirtPageNum(bottom / PAGE_SIZE + 2)).is_none());
    let trap = VirtAddr::from_usize(TRAP_CONTEXT_BASE - PAGE_SIZE).as_vpn_by_floor();
    assert_eq!(ms.translate(trap).unwrap().flags, 2 | 4 | PTE_V);
    assert_eq!(a.available_frames(), 0x100 - 4);
}

#[test]
fn new_fork_and_exec_a_process() {
    let mut mem = PhysMem::new(0x400);
    let mut a = allocator(0x100, 0x400);
    let mut processes: BTreeMap<usize, ProcessControlBlock> = BTreeMap::new();
    let mut manager = Manager::new();
    let mut pids = RecycleAllocator::new();
    let (ms, ustack_base, _) = MemorySet::from_elf_image(&app(), STRAMPOLINE, &mut a, &mut mem).unwrap();
    let pid = ProcessControlBlock::new(&mut processes, &mut manager, &mut pids, ms, ustack_base, 0x9000, 0x1004, KernelEntry { sstatus: 0x20, satp: 0x8000_0000_0008_0000, kernel_sp: 0xb000, trap_handler: 0x8020_1000 }, &mut a, &mut mem);
    assert_eq!(pid, 0);
    {
        let p = &processes[&pid];
        assert_eq!(p.inner.cwd, "/");
        assert_eq!(p.inner.fd_table.len(), 3);
        let t = p.inner.task(0);
        assert_eq!(t.inner.res, Some(TaskUserRes { tid: 0, ustack_base }));
        let trap = VirtAddr::from_usize(TRAP_CONTEXT_BASE).as_vpn_by_floor();
        assert_eq!(t.inner.trap_cx_ppn, p.inner.memory_set.translate(trap).unwrap().ppn());
        assert_eq!(t.user_token(&processes), p.inner.memory_set.token());
        assert_eq!(t.user_token(&processes) >> 60, 8);
        // the user stack lies right above its guard page
        assert!(p.inner.memory_set.translate(VirtPageNum(ustack_base / PAGE_SIZE)).is_some());
        assert!(p.inner.memory_set.translate(VirtPageNum(ustack_base / PAGE_SIZE - 1)).is_none());
    }
    let mut processor = Processor::new();
    assert_eq!(run_next(&mut processor, &mut manager, &mut processes), Some(TaskRef { pid: 0, tid: 0 }));
    assert_eq!(processor.current(), Some(TaskRef { pid: 0, tid: 0 }));
    assert_eq!(processes[&pid].inner.task(0).inner.task_status, Status::Running);
    assert_eq!(run_next(&mut processor, &mut manager, &mut processes), None);
    assert_eq!(processor.current(), Some(TaskRef { pid: 0, tid: 0 }));

    // the parent writes to its stack, then forks
    let stack_va = ustack_base + 16;
    {
        let p = processes.get(&pid).unwrap();
        write_user_bytes(p.inner.memory_set.page_table(), &mut mem, stack_va, b"hello");
    }
    // the parent's saved a0 holds 7
    let parent_trap = processes[&pid].inner.task(0).inner.trap_cx_ppn.0;
    mem.write_byte(parent_trap, 80, 7);
    let child = sys_fork(&processor, &mut processes, &mut pids, &mut manager, &mut a, &mut mem, 0xa000, 0xa000, STRAMPOLINE);
    assert_eq!(child, 1);
    let child = child as usize;
    assert_eq!(processes[&pid].inner.children, vec![child]);
    assert_eq!(processes[&child].inner.parent, Some(pid));
    assert_eq!(fetch(&mut manager), Some(TaskRef { pid: child, tid: 0 }));
    // the child sees 0 as the result of the fork
    let child_trap = processes[&child].inner.task(0).inner.trap_cx_ppn.0;
    assert!(child_trap != parent_trap);
    assert_eq!(mem.read_byte(child_trap, 80), 0);
    assert_eq!(mem.read_byte(parent_trap, 80), 7);
    // the child returns to user space where the parent does, on its own kernel stack
    assert_eq!(context_word(&mem, parent_trap, CX_SEPC), 0x1004);
    assert_eq!(context_word(&mem, child_trap, CX_SEPC), 0x1004);
    assert_eq!(context_word(&mem, parent_trap, CX_KERNEL_SP), 0xb000);
    assert_eq!(context_word(&mem, child_trap, CX_KERNEL_SP), 0xa000);
    assert_eq!(context_word(&mem, child_trap, 2), (ustack_base + USER_STACK_SIZE) as u64);
    {
        let p = &processes[&pid].inner.memory_set;
        let c = &processes[&child].inner.memory_set;
        for (i, b) in b"hello".iter().enumerate() {
            assert_eq!(user_byte(c, &mem, stack_va + i), *b);
        }
        assert_eq!(user_byte(c, &mem, 0x1001), b'1');
        assert!(c.translate(VirtPageNum(1)).unwrap().ppn() != p.translate(VirtPageNum(1)).unwrap().ppn());
    }

    // the child asks to run "../bin/cat" with the arguments "cat" and "f"
    let mut child_cpu = Processor::new();
    child_cpu.set_current(TaskRef { pid: child, tid: 0 });
    {
        let pt = processes[&child].inner.memory_set.page_table();
        write_user_bytes(pt, &mut mem, stack_va, b"../bin/cat\0cat\0f\0");
        let mut table: Vec<u8> = Vec::new();
        table.extend_from_slice(&((stack_va + 11) as u64).to_le_bytes());
        table.extend_from_slice(&((stack_va + 15) as u64).to_le_bytes());
        table.extend_from_slice(&0u64.to_le_bytes());
        write_user_bytes(pt, &mut mem, stack_va + 24, &table);
    }
    let (full, argv) = sys_exec(&child_cpu, &processes, &mem, stack_va, stack_va + 24).unwrap();
    assert_eq!(full, "/bin/cat");
    assert_eq!(argv, vec!["cat".to_string(), "f".to_string()]);
    // an address that is not mapped cannot be read
    assert!(sys_exec(&child_cpu, &processes, &mem, 0x3000, stack_va + 24).is_none());
    assert!(sys_exec(&child_cpu, &processes, &mem, stack_va, 0x3000).is_none());

    // the child replaces its image
    let (ms2, base2, entry2) = MemorySet::from_elf_image(&app(), STRAMPOLINE, &mut a, &mut mem).unwrap();
    assert_eq!(entry2, 0x1004);
    let args: Vec<Vec<u8>> = argv.into_iter().map(|s| s.into_bytes()).collect();
    let kernel = KernelEntry { sstatus: 0x20, satp: 0x8000_0000_0008_0000, kernel_sp: 0xb000, trap_handler: 0x8020_1000 };
    let (sp, argv) = ProcessControlBlock::exec(&mut processes, child, ms2, base2, &args, entry2, kernel, &mut a, &mut mem);
    // the thread starts the program at its entry with its arguments
    let cx = processes[&child].inner.task(0).inner.trap_cx_ppn.0;
    let word = |w: usize| -> u64 {
        let mut b = [0u8; 8];
        for (i, x) in b.iter_mut().enumerate() {
            *x = mem.read_byte(cx, 8 * w + i);
        }
        u64::from_le_bytes(b)
    };
    assert_eq!(word(CX_SEPC), 0x1004);
    assert_eq!(word(2), sp as u64);
    assert_eq!(word(10), 2);
    assert_eq!(word(11), argv as u64);
    assert_eq!(word(CX_SSTATUS), 0x20);
    assert_eq!(word(CX_KERNEL_SATP), 0x8000_0000_0008_0000);
    assert_eq!(word(CX_KERNEL_SP), 0xb000);
    assert_eq!(word(CX_TRAP_HANDLER), 0x8020_1000);
    assert_eq!(word(1), 0);
    let top = base2 + USER_STACK_SIZE;
    assert_eq!(argv, top - 3 * 8);
    assert_eq!(sp, argv - 4 - 2);
    let c = &processes[&child].inner.memory_set;
    assert_eq!(user_u64(c, &mem, argv), (argv - 4) as u64);
    assert_eq!(user_u64(c, &mem, argv + 8), (argv - 6) as u64);
    assert_eq!(user_u64(c, &mem, argv + 16), 0);
    assert_eq!(user_byte(c, &mem, argv - 4), b'c');
    assert_eq!(user_byte(c, &mem, argv - 1), 0);
    assert_eq!(user_byte(c, &mem, argv - 6), b'f');
    // the parent's stack still holds what it wrote
    let p = &processes[&pid].inner.memory_set;
    assert_eq!(user_byte(p, &mem, stack_va), b'h');
}

#[test]
fn traps_from_user_space() {
    assert_eq!(trap_action(TrapCause::UserEnvCall), TrapAction::Syscall);
    assert_eq!(trap_action(TrapCause::LoadPageFault), TrapAction::Signal(SIGSEGV));
    assert_eq!(trap_action(TrapCause::StoreFault), TrapAction::Signal(SIGSEGV));
    assert_eq!(trap_action(TrapCause::InstructionPageFault), TrapAction::Signal(SIGSEGV));
    assert_eq!(trap_action(TrapCause::IllegalInstruction), TrapAction::Signal(SIGILL));
    assert_eq!(trap_action(TrapCause::SupervisorTimer), TrapAction::Tick);
    assert_eq!(trap_action(TrapCause::Other), TrapAction::Unsupported);

    let mut mem = PhysMem::new(0x200);
    let mut a = allocator(0x100, 0x200);
    let mut processes: BTreeMap<usize, ProcessControlBlock> = BTreeMap::new();
    let mut manager = Manager::new();
    let mut pids = RecycleAllocator::new();
    let (ms, ustack_base, _) = MemorySet::from_elf_image(&app(), STRAMPOLINE, &mut a, &mut mem).unwrap();
    let pid = ProcessControlBlock::new(&mut processes, &mut manager, &mut pids, ms, ustack_base, 0x9000, 0x1004, KernelEntry { sstatus: 0x20, satp: 0x8000_0000_0008_0000, kernel_sp: 0xb000, trap_handler: 0x8020_1000 }, &mut a, &mut mem);
    let mut processor = Processor::new();
    processor.set_current(TaskRef { pid, tid: 0 });
    let cx = processes[&pid].inner.task(0).inner.trap_cx_ppn.0;
    // a system call: the thread resumes after the call, with the result in a0
    assert_eq!(user_handler(TrapCause::UserEnvCall, &processor, &mut processes, &mut mem, cx), TrapAction::Syscall);
    assert_eq!(context_word(&mem, cx, CX_SEPC), 0x1008);
    set_syscall_result(&mut mem, cx, -3);
    assert_eq!(context_word(&mem, cx, 10), (-3i64) as u64);
    // with no error signal pending, the trap ends with the result in a0
    assert_eq!(finish_trap(&mut processor, &mut processes, &mut mem, cx, Some(5), 0), None);
    assert_eq!(context_word(&mem, cx, 10), 5);
    assert_eq!(context_word(&mem, cx, CX_SEPC), 0x1008);
    assert_eq!(processor.current(), Some(TaskRef { pid, tid: 0 }));
    assert_eq!(user_handler(TrapCause::SupervisorTimer, &processor, &mut processes, &mut mem, cx), TrapAction::Tick);
    assert_eq!(context_word(&mem, cx, CX_SEPC), 0x1008);
    assert_eq!(processes[&pid].inner.signals.bits(), 0);
    assert_eq!(user_handler(TrapCause::LoadFault, &processor, &mut processes, &mut mem, cx), TrapAction::Signal(SIGSEGV));
    assert_eq!(processes[&pid].inner.signals.bits(), SIGSEGV);
    assert_eq!(user_handler(TrapCause::IllegalInstruction, &processor, &mut processes, &mut mem, cx), TrapAction::Signal(SIGILL));
    assert_eq!(processes[&pid].inner.signals.bits(), SIGSEGV | SIGILL);
    // an illegal instruction is reported before a segmentation fault
    assert_eq!(processes[&pid].inner.signals.check_error(), Some((-4, "Illegal Instruction, SIGILL=4")));
    // the pending signal ends the thread: the idle process's main thread
    // failing shuts the machine down
    assert_eq!(finish_trap(&mut processor, &mut processes, &mut mem, cx, None, 0), Some(ExitOutcome::Shutdown(true)));
    assert_eq!(processor.current(), None);
    assert_eq!(context_word(&mem, cx, 10), 5);
}

#[test]
fn init_loads_the_first_process_or_nothing() {
    let mut mem = PhysMem::new(0x400);
    let mut a = allocator(0x100, 0x400);
    let mut processes: BTreeMap<usize, ProcessControlBlock> = BTreeMap::new();
    let mut manager = Manager::new();
    let mut pids = RecycleAllocator::new();
    // a file that is no ELF file makes no process
    let garbage = vec![0u8; 200];
    assert_eq!(init(&mut processes, &mut manager, &mut pids, &garbage, 0x9000, KernelEntry { sstatus: 0x20, satp: 0x8000_0000_0008_0000, kernel_sp: 0xb000, trap_handler: 0x8020_1000 }, STRAMPOLINE, &mut a, &mut mem), None);
    assert!(processes.is_empty());
    assert_eq!(fetch(&mut manager), None);
    // too few frames for the user stack: nothing is made
    let mut small = allocator(0x100, 0x106);
    assert_eq!(init(&mut processes, &mut manager, &mut pids, &app(), 0x9000, KernelEntry { sstatus: 0x20, satp: 0x8000_0000_0008_0000, kernel_sp: 0xb000, trap_handler: 0x8020_1000 }, STRAMPOLINE, &mut small, &mut mem), None);
    assert!(processes.is_empty());
    // the application becomes process 0, ready to run
    let pid = init(&mut processes, &mut manager, &mut pids, &app(), 0x9000, KernelEntry { sstatus: 0x20, satp: 0x8000_0000_0008_0000, kernel_sp: 0xb000, trap_handler: 0x8020_1000 }, STRAMPOLINE, &mut a, &mut mem).unwrap();
    assert_eq!(pid, 0);
    let t = processes[&pid].inner.task(0);
    assert_eq!(t.kstack, 0x9000);
    // the user stack lies a guard page above the data segment, which ends at page 5
    assert_eq!(t.inner.res, Some(TaskUserRes { tid: 0, ustack_base: 7 * PAGE_SIZE }));
    assert_eq!(fetch(&mut manager), Some(TaskRef { pid: 0, tid: 0 }));
}

#[test]
fn exec_program_runs_a_file_of_the_file_system() {
    // the root directory holds "cat" (inode 1), a file holding the program
    let total: u32 = 4096;
    let mut efs = EasyFileSystem::create(BlockCacheManager::new(BlockDevice::new(total as usize)), total, 1);
    let first_data = efs.data_area_start_block;
    let mut root = DiskInode::new(DiskInodeKind::Directory);
    root.increase_size(DIRENT_SIZE as u32, vec![first_data], &mut efs.block_device);
    root.write_at(0, &DirEntry::new("cat", 1).as_bytes(), &mut efs.block_device);
    let (b, o) = efs.disk_inode_pos(0);
    efs.block_device.modify(b as usize, o, &root.to_bytes());
    let program = app();
    let mut file = DiskInode::new(DiskInodeKind::File);
    file.increase_size(program.len() as u32, vec![first_data + 1], &mut efs.block_device);
    file.write_at(0, &program, &mut efs.block_device);
    let (b, o) = efs.disk_inode_pos(1);
    efs.block_device.modify(b as usize, o, &file.to_bytes());

    let mut mem = PhysMem::new(0x400);
    let mut a = allocator(0x100, 0x400);
    let mut processes: BTreeMap<usize, ProcessControlBlock> = BTreeMap::new();
    let mut manager = Manager::new();
    let mut pids = RecycleAllocator::new();
    let kernel = KernelEntry { sstatus: 0x20, satp: 0x8000_0000_0008_0000, kernel_sp: 0xb000, trap_handler: 0x8020_1000 };
    let (ms, ustack_base, _) = MemorySet::from_elf_image(&app(), STRAMPOLINE, &mut a, &mut mem).unwrap();
    let pid = ProcessControlBlock::new(&mut processes, &mut manager, &mut pids, ms, ustack_base, 0x9000, 0x1004, kernel, &mut a, &mut mem);
    let args: Vec<Vec<u8>> = vec![b"cat".to_vec(), b"f".to_vec()];
    // no such program: nothing changes
    assert_eq!(exec_program(&mut processes, pid, &mut efs, "/dog", &args, kernel, STRAMPOLINE, &mut a, &mut mem), -1);
    assert_eq!(exec_program(&mut processes, pid, &mut efs, "/cat/x", &args, kernel, STRAMPOLINE, &mut a, &mut mem), -1);
    // the program runs with its two arguments
    assert_eq!(exec_program(&mut processes, pid, &mut efs, "/cat", &args, kernel, STRAMPOLINE, &mut a, &mut mem), 2);
    let cx = processes[&pid].inner.task(0).inner.trap_cx_ppn.0;
    assert_eq!(context_word(&mem, cx, CX_SEPC), 0x1004);
    assert_eq!(context_word(&mem, cx, 10), 2);
    let argv = context_word(&mem, cx, 11) as usize;
    assert_eq!(argv, ustack_base + USER_STACK_SIZE - 3 * 8);
    assert_eq!(context_word(&mem, cx, 2) as usize, argv - 4 - 2);
    let c = &processes[&pid].inner.memory_set;
    assert_eq!(user_byte(c, &mem, 0x1001), b'1');
    assert_eq!(user_u64(c, &mem, argv), (argv - 4) as u64);
    assert_eq!(user_byte(c, &mem, argv - 4), b'c');
    assert_eq!(user_byte(c, &mem, argv - 6), b'f');

    // the same program asked for from user space, by a path seen from the
    // working directory, with the one argument "x"
    let mut cpu = Processor::new();
    cpu.set_current(TaskRef { pid, tid: 0 });
    let va = ustack_base + 16;
    {
        let pt = processes[&pid].inner.memory_set.page_table();
        write_user_bytes(pt, &mut mem, va, b"cat\0x\0dog\0");
        let mut table: Vec<u8> = Vec::new();
        table.extend_from_slice(&((va + 4) as u64).to_le_bytes());
        table.extend_from_slice(&0u64.to_le_bytes());
        write_user_bytes(pt, &mut mem, va + 16, &table);
    }
    assert_eq!(run_exec(&cpu, &mut processes, &mut efs, va + 6, va + 16, kernel, STRAMPOLINE, &mut a, &mut mem), -1);
    assert_eq!(run_exec(&cpu, &mut processes, &mut efs, va, va + 16, kernel, STRAMPOLINE, &mut a, &mut mem), 1);
    let cx = processes[&pid].inner.task(0).inner.trap_cx_ppn.0;
    assert_eq!(context_word(&mem, cx, 10), 1);
    assert_eq!(context_word(&mem, cx, CX_SEPC), 0x1004);
    let argv = context_word(&mem, cx, 11) as usize;
    let c = &processes[&pid].inner.memory_set;
    assert_eq!(user_byte(c, &mem, argv - 2), b'x');
}
