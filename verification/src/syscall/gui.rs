//! Graphics system calls.

use vstd::prelude::*;
use crate::mm::address::{PhysAddr, PhysMem, VirtAddr, PAGE_SIZE};
use crate::mm::frame_allocator::StackFrameAllocator;
use crate::mm::memory_set::{MapArea, MapPermission, MapType, MemorySet};

verus! {

/// Where user space sees the frame buffer
pub const FB_VADDR: usize = 0x1000_0000;

/// Map the frame buffer of `fb_len` bytes at physical address `fb_pa` into
/// `memory_set` at [`FB_VADDR`], readable and writable from user mode, each
/// page to the frame buffer page at the same distance; returns `FB_VADDR`
pub fn sys_framebuffer(
    memory_set: &mut MemorySet,
    fb_pa: usize,
    fb_len: usize,
    allocator: &mut StackFrameAllocator,
    mem: &mut PhysMem,
) -> (r: isize)
    requires
        fb_pa % PAGE_SIZE == 0,
        fb_pa / PAGE_SIZE + 0x800_0000 <= isize::MAX,
        FB_VADDR + fb_len <= 0x80_0000_0000 - PAGE_SIZE,
        FB_VADDR + fb_len + PAGE_SIZE <= usize::MAX,
        old(memory_set).wf(),
        old(memory_set).frames_allocated(*old(allocator)),
        forall|v: usize|
            FB_VADDR / PAGE_SIZE <= v < (FB_VADDR + fb_len + PAGE_SIZE - 1) / PAGE_SIZE as int
                ==> !#[trigger] old(memory_set).mappings().contains_key(v),
    ensures
        r == FB_VADDR,
        final(memory_set).wf(),
        final(memory_set).frames() == old(memory_set).frames(),
        *final(allocator) == *old(allocator),
        *final(mem) == *old(mem),
        ({
            let area = final(memory_set).areas().last();
            &&& final(memory_set).areas() == old(memory_set).areas().push(area)
            &&& area.vpn_range.start.0 == FB_VADDR / PAGE_SIZE
            &&& area.vpn_range.end.0 == (FB_VADDR + fb_len + PAGE_SIZE - 1) / PAGE_SIZE as int
            &&& area.map_type == MapType::Linear((fb_pa as int / PAGE_SIZE as int - FB_VADDR as int / PAGE_SIZE as int) as isize)
            &&& area.map_perm.value() == 22u8
            &&& area.mapped_in(final(memory_set).mappings(), final(memory_set).frames())
            &&& final(memory_set).mappings().remove_keys(area.vpn_set()) == old(memory_set).mappings().remove_keys(area.vpn_set())
        }),
{
    let fb_start_pa = PhysAddr(fb_pa);
    let fb_start_ppn = fb_start_pa.as_ppn_by_floor();
    let fb_start_vpn = VirtAddr(FB_VADDR).as_vpn_by_floor();
    let pn_offset = fb_start_ppn.0 as isize - fb_start_vpn.0 as isize;
    let perm = MapPermission::r().union(MapPermission::w()).union(MapPermission::u());
    assert(2u8 | 4u8 | 16u8 == 22u8) by (bit_vector);
    let area = MapArea::new(VirtAddr(FB_VADDR), VirtAddr(FB_VADDR + fb_len), MapType::Linear(pn_offset), perm);
    proof {
        assert forall|v: usize| area.has_vpn(v as int) implies #[trigger] area.linear_ok(v as int) by {
            assert(v < 0x800_0000) by (nonlinear_arith)
                requires
                    v < (FB_VADDR + fb_len + 4095) / 4096,
                    FB_VADDR + fb_len <= 0x80_0000_0000 - 4096,
            ;
        }
    }
    memory_set.push(area, None, allocator, mem);
    FB_VADDR as isize
}

/// The result of flushing the frame buffer to the screen: 0
pub fn sys_framebuffer_flush() -> (r: isize)
    ensures
        r == 0,
{
    0
}

} // verus!
