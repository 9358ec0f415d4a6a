use lemon_core::drivers::virtio::VirtioHal;
use lemon_core::fs::{Stdin, Stdout};
use lemon_core::mm::address::{PhysAddr, PhysMem, PhysPageNum, VirtAddr, VirtPageNum, MEMORY_END, PAGE_SIZE, TRAMPOLINE};
use lemon_core::mm::frame_allocator::{frame_alloc, frame_dealloc, init as frame_init, FrameTracker, StackFrameAllocator};
use lemon_core::mm::memory_set::{kernel_token, KernelLayout, MapArea, MapPermission, MapType, MemorySet};
use lemon_core::mm::page_table::{PageTable, PTE_R, PTE_V, PTE_W, PTE_X};
use lemon_core::mm::{init as mm_init, translated_byte_buffer, translated_mut_ref, translated_ref, translated_str, UserBuffer, UserSegment};

fn allocator(l: usize, r: usize) -> StackFrameAllocator {
    let mut a = StackFrameAllocator::new();
    a.init(PhysPageNum(l), PhysPageNum(r));
    a
}

#[test]
fn addresses_and_pages() {
    let a = PhysAddr(0x8020_0123);
    assert_eq!(a.page_offset(), 0x123);
    assert!(!a.is_aligned());
    assert_eq!(a.as_ppn_by_floor().0, 0x80200);
    assert_eq!(a.as_ppn_by_ceil().0, 0x80201);
    assert!(PhysAddr(0x8020_0000).is_aligned());
    assert_eq!(PhysAddr(0x8020_0000).as_ppn_by_ceil().0, 0x80200);
    let v = VirtAddr(0x1234_5678);
    assert_eq!(v.as_vpn_by_floor().0, 0x12345);
    assert_eq!(v.as_vpn_by_ceil().0, 0x12346);
    assert_eq!(VirtAddr::from_usize(TRAMPOLINE).0, (1usize << 39) - PAGE_SIZE);
    let mut p = VirtPageNum(7);
    p.step();
    assert_eq!(p.addr().0, 8 * PAGE_SIZE);
    assert_eq!(PhysPageNum(3).addr().0, 3 * PAGE_SIZE);
}

#[test]
fn phys_mem_bytes() {
    let mut mem = PhysMem::new(16);
    assert_eq!(mem.read_byte(3, 100), 0);
    mem.write_byte(3, 100, 0xaa);
    assert_eq!(mem.read_byte(3, 100), 0xaa);
    assert_eq!(mem.read_byte(3, 101), 0);
    assert_eq!(mem.read_byte(4, 100), 0);
    mem.zero_page(3);
    assert_eq!(mem.read_byte(3, 100), 0);
}

#[test]
fn frame_allocator_reuses_last_freed_frame() {
    let mut a = allocator(10, 13);
    assert_eq!(a.alloc_frame().map(|p| p.0), Some(10));
    assert_eq!(a.alloc_frame().map(|p| p.0), Some(11));
    a.dealloc(PhysPageNum(10));
    assert_eq!(a.alloc_frame().map(|p| p.0), Some(10));
    assert_eq!(a.alloc_frame().map(|p| p.0), Some(12));
    assert_eq!(a.alloc_frame().map(|p| p.0), None);
}

#[test]
fn frame_alloc_zeroes_the_frame() {
    let mut mem = PhysMem::new(32);
    mem.write_byte(20, 5, 9);
    let mut a = allocator(20, 22);
    let f = frame_alloc(&mut a, &mut mem).unwrap();
    assert_eq!(f.ppn.0, 20);
    assert_eq!(mem.read_byte(20, 5), 0);
    frame_dealloc(&mut a, f.ppn);
    let g = frame_alloc(&mut a, &mut mem).unwrap();
    assert_eq!(g.ppn.0, 20);
    let _ = frame_alloc(&mut a, &mut mem).unwrap();
    assert!(frame_alloc(&mut a, &mut mem).is_none());
}

#[test]
fn frame_allocator_init_covers_memory_after_kernel() {
    let mut a = StackFrameAllocator::new();
    frame_init(&mut a, 0x8040_0001);
    assert_eq!(a.alloc_frame().map(|p| p.0), Some(0x80401));
    let mut last = 0;
    while let Some(p) = a.alloc_frame() {
        last = p.0;
    }
    assert_eq!(last, MEMORY_END / PAGE_SIZE - 1);
}

#[test]
fn page_table_map_translate_unmap() {
    let mut mem = PhysMem::new(64);
    let root = FrameTracker::new(PhysPageNum(1), &mut mem);
    let mut pt = PageTable::new(root);
    assert_eq!(pt.token(), (8usize << 60) | 1);
    pt.map(VirtPageNum(5), PhysPageNum(40), PTE_R | PTE_W);
    let e = pt.translate(VirtPageNum(5)).unwrap();
    assert_eq!(e.ppn().0, 40);
    assert!(e.is_valid());
    assert!(e.readable());
    assert!(e.is_writable());
    assert!(!e.is_executable());
    assert_eq!(e.flags, PTE_R | PTE_W | PTE_V);
    assert_eq!(pt.translate_va(VirtAddr(5 * PAGE_SIZE + 7)).unwrap().0, 40 * PAGE_SIZE + 7);
    assert!(pt.translate_va(VirtAddr(6 * PAGE_SIZE)).is_none());
    pt.unmap(VirtPageNum(5));
    assert!(pt.translate(VirtPageNum(5)).is_none());
}

#[test]
fn page_table_data_frames_go_back_to_the_allocator() {
    let mut mem = PhysMem::new(64);
    let mut a = allocator(10, 20);
    let root = frame_alloc(&mut a, &mut mem).unwrap();
    let mut pt = PageTable::new(root);
    let f = frame_alloc(&mut a, &mut mem).unwrap();
    assert_eq!(f.ppn.0, 11);
    pt.insert(VirtPageNum(3), f);
    pt.remove(VirtPageNum(3), &mut a);
    assert_eq!(a.alloc_frame().map(|p| p.0), Some(11));
    // removing a page without a frame changes nothing
    pt.remove(VirtPageNum(4), &mut a);
    assert_eq!(a.alloc_frame().map(|p| p.0), Some(12));
}

#[test]
fn map_permission_bits() {
    let rw = MapPermission::r().union(MapPermission::w());
    assert_eq!(rw.bits(), 6);
    assert!(rw.contains(MapPermission::r()));
    assert!(!rw.contains(MapPermission::x()));
    assert_eq!(MapPermission::empty().bits(), 0);
    assert_eq!(MapPermission::u().bits(), 16);
    assert_eq!(MapPermission::x().bits(), 8);
}

#[test]
fn map_area_rounds_to_pages() {
    let a = MapArea::new(VirtAddr(0x1800), VirtAddr(0x3001), MapType::Framed, MapPermission::r());
    assert_eq!(a.vpn_range.start().0, 1);
    assert_eq!(a.vpn_range.end().0, 4);
}

fn user_space(mem: &mut PhysMem, a: &mut StackFrameAllocator) -> MemorySet {
    MemorySet::new_bare(a, mem)
}

#[test]
fn memory_set_framed_area_with_data() {
    let mut mem = PhysMem::new(0x200);
    let mut a = allocator(0x100, 0x200);
    let mut ms = user_space(&mut mem, &mut a);
    let data: Vec<u8> = (0..5000u32).map(|i| (i % 253) as u8 + 1).collect();
    let area = MapArea::new(VirtAddr(0x10000), VirtAddr(0x13000), MapType::Framed, MapPermission::r().union(MapPermission::u()));
    ms.push(area, Some(&data), &mut a, &mut mem);
    let p0 = ms.translate(VirtPageNum(0x10)).unwrap();
    let p1 = ms.translate(VirtPageNum(0x11)).unwrap();
    let p2 = ms.translate(VirtPageNum(0x12)).unwrap();
    assert!(ms.translate(VirtPageNum(0x13)).is_none());
    assert_eq!(p0.flags, 2 | 16 | PTE_V);
    assert!(p0.ppn().0 != p1.ppn().0 && p1.ppn().0 != p2.ppn().0 && p0.ppn().0 != p2.ppn().0);
    assert_eq!(mem.read_byte(p0.ppn().0, 0), data[0]);
    assert_eq!(mem.read_byte(p0.ppn().0, 4095), data[4095]);
    assert_eq!(mem.read_byte(p1.ppn().0, 0), data[4096]);
    assert_eq!(mem.read_byte(p1.ppn().0, 903), data[4999]);
    assert_eq!(mem.read_byte(p1.ppn().0, 904), 0);
    assert_eq!(mem.read_byte(p2.ppn().0, 0), 0);
}

#[test]
fn memory_set_remove_area_frees_frames() {
    let mut mem = PhysMem::new(0x200);
    let mut a = allocator(0x100, 0x200);
    let mut ms = user_space(&mut mem, &mut a);
    ms.insert_framed_area(VirtAddr(0x4000), VirtAddr(0x6000), MapPermission::r(), &mut a, &mut mem);
    ms.push(
        MapArea::new(VirtAddr(0x8000), VirtAddr(0x9000), MapType::Identical, MapPermission::r()),
        None,
        &mut a,
        &mut mem,
    );
    assert_eq!(ms.translate(VirtPageNum(8)).unwrap().ppn().0, 8);
    let f4 = ms.translate(VirtPageNum(4)).unwrap().ppn().0;
    let f5 = ms.translate(VirtPageNum(5)).unwrap().ppn().0;
    ms.remove_area_with_start_vpn(VirtPageNum(4), &mut a);
    assert!(ms.translate(VirtPageNum(4)).is_none());
    assert!(ms.translate(VirtPageNum(5)).is_none());
    assert!(ms.translate(VirtPageNum(8)).is_some());
    // the frames come back last freed first
    assert_eq!(a.alloc_frame().map(|p| p.0), Some(f5));
    assert_eq!(a.alloc_frame().map(|p| p.0), Some(f4));
    // no area starts there: nothing changes
    ms.remove_area_with_start_vpn(VirtPageNum(30), &mut a);
    assert!(ms.translate(VirtPageNum(8)).is_some());
    ms.recycle_data_pages();
    assert!(ms.translate(VirtPageNum(8)).is_some());
}

#[test]
fn memory_set_linear_area() {
    let mut mem = PhysMem::new(0x200);
    let mut a = allocator(0x100, 0x200);
    let mut ms = user_space(&mut mem, &mut a);
    ms.push(
        MapArea::new(VirtAddr(0x10000), VirtAddr(0x12000), MapType::Linear(-0x8), MapPermission::r()),
        None,
        &mut a,
        &mut mem,
    );
    assert_eq!(ms.translate(VirtPageNum(0x10)).unwrap().ppn().0, 0x8);
    assert_eq!(ms.translate(VirtPageNum(0x11)).unwrap().ppn().0, 0x9);
}

fn layout() -> KernelLayout {
    KernelLayout {
        stext: 0x8020_0000,
        etext: 0x8020_4000,
        srodata: 0x8020_4000,
        erodata: 0x8020_6000,
        sdata: 0x8020_6000,
        edata: 0x8020_8000,
        sbss_with_stack: 0x8020_8000,
        ebss: 0x8021_0000,
        ekernel: 0x8021_0000,
        strampoline: 0x8020_1000,
    }
}

#[test]
fn kernel_space_maps_itself() {
    let mut mem = PhysMem::new(MEMORY_END / PAGE_SIZE);
    let mut a = StackFrameAllocator::new();
    let mmio = [(0x0010_0000usize, 0x2000usize), (0x1000_1000, 0x1000)];
    let ks = mm_init(&mut a, &mut mem, &layout(), &mmio);
    // every page from the text to the end of memory maps to itself
    let mut vpn = 0x80200usize;
    while vpn < MEMORY_END / PAGE_SIZE {
        assert_eq!(ks.translate(VirtPageNum(vpn)).unwrap().ppn().0, vpn);
        vpn += 1;
    }
    let text = ks.translate(VirtPageNum(0x80201)).unwrap();
    assert!(!text.is_writable() && text.is_executable());
    let rodata = ks.translate(VirtPageNum(0x80204)).unwrap();
    assert!(!rodata.is_writable() && !rodata.is_executable());
    let data = ks.translate(VirtPageNum(0x80206)).unwrap();
    assert!(data.is_writable() && !data.is_executable());
    assert_eq!(ks.translate(VirtPageNum(0x100)).unwrap().ppn().0, 0x100);
    assert_eq!(ks.translate(VirtPageNum(0x10001)).unwrap().ppn().0, 0x10001);
    assert!(ks.translate(VirtPageNum(0x10002)).is_none());
    let tramp = ks.translate(VirtPageNum((1usize << 27) - 1)).unwrap();
    assert_eq!(tramp.ppn().0, 0x80201);
    assert_eq!(tramp.flags, PTE_R | PTE_X | PTE_V);
    // the root of the page table is the first frame after the kernel
    assert_eq!(kernel_token(&ks), (8usize << 60) | 0x80210);
}

#[test]
fn new_kernel_without_mmio() {
    let mut mem = PhysMem::new(MEMORY_END / PAGE_SIZE);
    let mut a = allocator(0x80210, MEMORY_END / PAGE_SIZE);
    let ks = MemorySet::new_kernel(&layout(), &[], &mut a, &mut mem);
    assert!(ks.translate(VirtPageNum(0x100)).is_none());
    assert_eq!(ks.token(), (8usize << 60) | 0x80210);
}

fn page_table_for_user(mem: &mut PhysMem) -> PageTable {
    let root = FrameTracker::new(PhysPageNum(1), mem);
    let mut pt = PageTable::new(root);
    pt.map(VirtPageNum(0x10), PhysPageNum(0x20), PTE_R | PTE_W);
    pt.map(VirtPageNum(0x11), PhysPageNum(0x25), PTE_R | PTE_W);
    pt
}

#[test]
fn byte_buffer_splits_at_pages() {
    let mut mem = PhysMem::new(0x40);
    let pt = page_table_for_user(&mut mem);
    let segs = translated_byte_buffer(&pt, 0x10ff0, 0x20);
    assert_eq!(
        segs,
        vec![
            UserSegment { ppn: 0x20, start: 0xff0, end: 0x1000 },
            UserSegment { ppn: 0x25, start: 0, end: 0x10 },
        ]
    );
    let one = translated_byte_buffer(&pt, 0x11000, 0x1000);
    assert_eq!(one, vec![UserSegment { ppn: 0x25, start: 0, end: 0x1000 }]);
    assert!(translated_byte_buffer(&pt, 0x10004, 0).is_empty());
    let buf = UserBuffer::new(segs);
    assert_eq!(buf.len(), 0x20);
    let addrs = buf.iter();
    assert_eq!(addrs.len(), 0x20);
    assert_eq!(addrs[0].0, 0x20 * PAGE_SIZE + 0xff0);
    assert_eq!(addrs[16].0, 0x25 * PAGE_SIZE);
    let mut buf = buf;
    assert_eq!(buf.iter_mut()[31].0, 0x25 * PAGE_SIZE + 15);
}

#[test]
fn user_strings_and_refs() {
    let mut mem = PhysMem::new(0x40);
    let pt = page_table_for_user(&mut mem);
    // "hi!" across the page boundary
    mem.write_byte(0x20, 0xffe, b'h');
    mem.write_byte(0x20, 0xfff, b'i');
    mem.write_byte(0x25, 0, b'!');
    mem.write_byte(0x25, 1, 0);
    assert_eq!(translated_str(&pt, &mem, 0x10ffe), "hi!");
    assert_eq!(translated_str(&pt, &mem, 0x11001), "");
    assert_eq!(translated_ref(&pt, 0x11008).0, 0x25 * PAGE_SIZE + 8);
    assert_eq!(translated_mut_ref(&pt, 0x10010).0, 0x20 * PAGE_SIZE + 0x10);
}

#[test]
fn virtio_dma_buffers_are_contiguous_frames() {
    let mut mem = PhysMem::new(0x40);
    let mut a = allocator(0x10, 0x40);
    let mut queue: Vec<FrameTracker> = Vec::new();
    mem.write_byte(0x10, 5, 9);
    let pa = VirtioHal::dma_alloc(3, &mut queue, &mut a, &mut mem);
    assert_eq!(pa, 0x10 * PAGE_SIZE);
    assert_eq!(queue.iter().map(|f| f.ppn.0).collect::<Vec<_>>(), vec![0x10, 0x11, 0x12]);
    assert_eq!(mem.read_byte(0x10, 5), 0);
    // a buffer of no pages still takes a frame
    let pb = VirtioHal::dma_alloc(0, &mut queue, &mut a, &mut mem);
    assert_eq!(pb, 0x13 * PAGE_SIZE);
    assert_eq!(queue.len(), 4);
    assert_eq!(VirtioHal::dma_dealloc(pa, 3, &mut a), 0);
    // the frames come back last-freed first
    assert_eq!(a.alloc_frame(), Some(PhysPageNum(0x12)));
    assert_eq!(a.alloc_frame(), Some(PhysPageNum(0x11)));
    assert_eq!(VirtioHal::phys_to_virt(0x1234), 0x1234);
}

#[test]
fn virtio_virt_to_phys_follows_the_kernel_space() {
    let mut mem = PhysMem::new(0x40);
    let mut a = allocator(0x10, 0x40);
    let mut ms = MemorySet::new_bare(&mut a, &mut mem);
    let area = MapArea::new(VirtAddr(0x3000), VirtAddr(0x4000), MapType::Framed, MapPermission::r());
    ms.push(area, None, &mut a, &mut mem);
    let ppn = ms.translate(VirtPageNum(3)).unwrap().ppn().0;
    assert_eq!(VirtioHal::virt_to_phys(&ms, 0x3abc), ppn * PAGE_SIZE + 0xabc);
}

#[test]
fn console_streams_move_user_bytes() {
    let mut mem = PhysMem::new(0x10);
    for (i, b) in b"hello".iter().enumerate() {
        mem.write_byte(3, 4091 + i, *b);
    }
    for (i, b) in b" world".iter().enumerate() {
        mem.write_byte(5, i, *b);
    }
    // a buffer across a page boundary: the end of page 3, then page 5
    let buf = UserBuffer::new(vec![
        UserSegment { ppn: 3, start: 4092, end: 4096 },
        UserSegment { ppn: 5, start: 0, end: 6 },
    ]);
    assert_eq!(Stdout.write(&buf, &mem), b"ello world".to_vec());
    assert_eq!(buf.len(), 10);
    let one = UserBuffer::new(vec![UserSegment { ppn: 5, start: 2, end: 3 }]);
    assert_eq!(Stdin.read(&one, &mut mem, b'X'), 1);
    assert_eq!(mem.read_byte(5, 2), b'X');
    assert_eq!(mem.read_byte(5, 1), b'w');
}
