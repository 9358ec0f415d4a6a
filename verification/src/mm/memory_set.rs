//! Address spaces: map areas and the memory sets made of them.

use vstd::prelude::*;
use super::address::{PhysAddr, PhysMem, PhysPageNum, VPNRange, VirtAddr, VirtPageNum, MEMORY_END, PAGE_SIZE, TRAMPOLINE};
use super::frame_allocator::{frame_alloc, StackFrameAllocator};
use super::page_table::{PageTable, PageTableEntry, PTE_R, PTE_V, PTE_X};
use super::elf::{elf_entry, elf_entry_point, elf_new, elf_parses, elf_ph_count, elf_segments, load_segments, ElfSegment};
use vstd::slice::slice_subrange;
use crate::task::tcb::{trap_cx_vpn, user_res_fit, user_res_fits, ustack_bottom, ustack_end_vpn, TaskUserRes, USER_STACK_SIZE};

verus! {

/// Whether `p` was handed out by the allocator between states `a0` and `a1`.
pub open spec fn newly_allocated(a0: StackFrameAllocator, a1: StackFrameAllocator, p: int) -> bool {
    a1.is_allocated(p) && !a0.is_allocated(p)
}

/// The byte that offset `i` of a freshly pushed framed area holds: the
/// data copied there, else zero.
pub open spec fn initial_byte(data: Option<&[u8]>, i: int) -> u8 {
    match data {
        Some(d) => if i < d@.len() { d@[i] } else { 0u8 },
        None => 0u8,
    }
}

/// Number of pages of the framed areas of `areas`.
pub open spec fn framed_pages(areas: Seq<MapArea>) -> int
    decreases areas.len(),
{
    if areas.len() == 0 {
        0
    } else {
        (if areas[0].map_type is Framed { areas[0].npages() } else { 0 }) + framed_pages(areas.skip(1))
    }
}

proof fn lemma_framed_pages_nonneg(areas: Seq<MapArea>)
    ensures
        framed_pages(areas) >= 0,
    decreases areas.len(),
{
    if areas.len() > 0 {
        lemma_framed_pages_nonneg(areas.skip(1));
    }
}

/// Whether `idx` is the first index of `areas` whose area starts at `start`.
pub open spec fn first_with_start(areas: Seq<MapArea>, start: VirtPageNum, idx: int) -> bool {
    &&& 0 <= idx < areas.len()
    &&& areas[idx].vpn_range.start == start
    &&& forall|j: int| 0 <= j < idx ==> #[trigger] areas[j].vpn_range.start != start
}

/// The virtual page of the trampoline.
pub open spec fn trampoline_vpn() -> int {
    (TRAMPOLINE as int % 0x80_0000_0000int) / PAGE_SIZE as int
}

/// Where the sections of the kernel image begin and end, and where the
/// trampoline code lies
#[derive(Clone, Copy, Debug)]
pub struct KernelLayout {
    pub stext: usize,
    pub etext: usize,
    pub srodata: usize,
    pub erodata: usize,
    pub sdata: usize,
    pub edata: usize,
    pub sbss_with_stack: usize,
    pub ebss: usize,
    pub ekernel: usize,
    pub strampoline: usize,
}

/// The regions the kernel maps to themselves, as start address, end address
/// and permission bits: text (R X), read-only data (R), data (R W), bss (R W),
/// the rest of physical memory (R W), then each memory-mapped register block
/// (R W).
pub open spec fn kernel_regions(l: KernelLayout, mmio: Seq<(usize, usize)>) -> Seq<(usize, usize, u8)> {
    seq![
        (l.stext, l.etext, 10u8),
        (l.srodata, l.erodata, 2u8),
        (l.sdata, l.edata, 6u8),
        (l.sbss_with_stack, l.ebss, 6u8),
        (l.ekernel, MEMORY_END, 6u8),
    ] + mmio.map_values(|p: (usize, usize)| (p.0, (p.0 + p.1) as usize, 6u8))
}

/// The first virtual page of a region.
pub open spec fn region_first(r: (usize, usize, u8)) -> int {
    (r.0 / PAGE_SIZE) as int
}

/// The page after the last one of a region.
pub open spec fn region_end(r: (usize, usize, u8)) -> int {
    (r.1 + PAGE_SIZE - 1) / PAGE_SIZE as int
}

/// Whether virtual page `v` belongs to the region.
pub open spec fn region_has_vpn(r: (usize, usize, u8), v: int) -> bool {
    region_first(r) <= v < region_end(r)
}

/// Whether `area` is the identical area of the region.
pub open spec fn region_matches(area: MapArea, r: (usize, usize, u8)) -> bool {
    &&& area.vpn_range.start.0 == region_first(r)
    &&& area.vpn_range.end.0 == region_end(r)
    &&& area.map_type == MapType::Identical
    &&& area.map_perm.value() == r.2
}

/// A region is ordered and lies in the SV39 address range.
pub open spec fn region_ok(r: (usize, usize, u8)) -> bool {
    r.0 <= r.1 < 0x80_0000_0000
}

/// No virtual page belongs to both regions.
pub open spec fn regions_disjoint(a: (usize, usize, u8), b: (usize, usize, u8)) -> bool {
    forall|v: int| !(region_has_vpn(a, v) && region_has_vpn(b, v))
}

/// The layout can be mapped: the memory-mapped blocks do not wrap around,
/// every region is ordered and within SV39, no two regions share a page, no
/// region holds the trampoline page, and the trampoline code starts a page.
pub open spec fn kernel_layout_ok(l: KernelLayout, mmio: Seq<(usize, usize)>) -> bool {
    let rs = kernel_regions(l, mmio);
    &&& forall|i: int| 0 <= i < mmio.len() ==> #[trigger] mmio[i].0 + mmio[i].1 <= usize::MAX
    &&& forall|i: int| 0 <= i < rs.len() ==> #[trigger] region_ok(rs[i])
    &&& forall|i: int, j: int| 0 <= i < rs.len() && 0 <= j < rs.len() && i != j ==> regions_disjoint(#[trigger] rs[i], #[trigger] rs[j])
    &&& forall|i: int| 0 <= i < rs.len() ==> !region_has_vpn(#[trigger] rs[i], trampoline_vpn())
    &&& l.strampoline % PAGE_SIZE == 0
}

/// An entry of the exec list of regions stands for the region `r`.
pub open spec fn region_entry_ok(e: (usize, usize, MapPermission), r: (usize, usize, u8)) -> bool {
    e.0 == r.0 && e.1 == r.1 && e.2.value() == r.2
}

/// The regions of [`kernel_regions`], with their permissions
fn kernel_region_list(l: &KernelLayout, mmio: &[(usize, usize)]) -> (v: Vec<(usize, usize, MapPermission)>)
    requires
        forall|i: int| 0 <= i < mmio@.len() ==> #[trigger] mmio@[i].0 + mmio@[i].1 <= usize::MAX,
    ensures
        v@.len() == kernel_regions(*l, mmio@).len(),
        forall|j: int| 0 <= j < v@.len() ==> #[trigger] region_entry_ok(v@[j], kernel_regions(*l, mmio@)[j]),
{
    let rw = MapPermission::r().union(MapPermission::w());
    let mut v: Vec<(usize, usize, MapPermission)> = Vec::new();
    v.push((l.stext, l.etext, MapPermission::r().union(MapPermission::x())));
    v.push((l.srodata, l.erodata, MapPermission::r()));
    v.push((l.sdata, l.edata, rw));
    v.push((l.sbss_with_stack, l.ebss, rw));
    v.push((l.ekernel, MEMORY_END, rw));
    assert(2u8 | 8u8 == 10u8 && 2u8 | 4u8 == 6u8) by (bit_vector);
    let ghost rs = kernel_regions(*l, mmio@);
    let mut i: usize = 0;
    while i < mmio.len()
        invariant
            i <= mmio@.len(),
            rs == kernel_regions(*l, mmio@),
            rw.value() == 6u8,
            forall|k: int| 0 <= k < mmio@.len() ==> #[trigger] mmio@[k].0 + mmio@[k].1 <= usize::MAX,
            v@.len() == 5 + i,
            forall|j: int| 0 <= j < v@.len() ==> #[trigger] region_entry_ok(v@[j], rs[j]),
        decreases mmio@.len() - i,
    {
        let pair = mmio[i];
        v.push((pair.0, pair.0 + pair.1, rw));
        i = i + 1;
    }
    v
}

/// How the pages of an area are backed
#[derive(Clone, Copy, Debug, PartialEq, Eq, Structural)]
pub enum MapType {
    /// Each virtual page maps to the physical page of the same number
    Identical,
    /// Each virtual page gets a frame of its own
    Framed,
    /// Each virtual page maps to the physical page this far from it
    Linear(isize),
}

/// Access permissions of an area: a set of the page table bits `R`, `W`,
/// `X` and `U`
#[derive(Clone, Copy, Debug, PartialEq, Eq, Structural)]
pub struct MapPermission {
    bits: u8,
}

impl MapPermission {
    /// Only the bits `R` (2), `W` (4), `X` (8) and `U` (16) may be set.
    #[verifier::type_invariant]
    spec fn only_known_bits(self) -> bool {
        self.bits & 0xe1u8 == 0
    }

    /// The bits of the permission.
    pub closed spec fn value(self) -> u8 {
        self.bits
    }

    /// No permission
    pub fn empty() -> (p: Self)
        ensures
            p.value() == 0,
    {
        assert(0u8 & 0xe1u8 == 0) by (bit_vector);
        MapPermission { bits: 0 }
    }

    /// Readable
    pub fn r() -> (p: Self)
        ensures
            p.value() == 2,
    {
        assert(2u8 & 0xe1u8 == 0) by (bit_vector);
        MapPermission { bits: 2 }
    }

    /// Writable
    pub fn w() -> (p: Self)
        ensures
            p.value() == 4,
    {
        assert(4u8 & 0xe1u8 == 0) by (bit_vector);
        MapPermission { bits: 4 }
    }

    /// Executable
    pub fn x() -> (p: Self)
        ensures
            p.value() == 8,
    {
        assert(8u8 & 0xe1u8 == 0) by (bit_vector);
        MapPermission { bits: 8 }
    }

    /// Accessible from user mode
    pub fn u() -> (p: Self)
        ensures
            p.value() == 16,
    {
        assert(16u8 & 0xe1u8 == 0) by (bit_vector);
        MapPermission { bits: 16 }
    }

    /// Both permissions
    pub fn union(self, other: Self) -> (p: Self)
        ensures
            p.value() == self.value() | other.value(),
    {
        proof {
            use_type_invariant(&self);
            use_type_invariant(&other);
        }
        let a = self.bits;
        let b = other.bits;
        assert((a | b) & 0xe1u8 == 0) by (bit_vector)
            requires
                a & 0xe1u8 == 0,
                b & 0xe1u8 == 0,
        ;
        MapPermission { bits: a | b }
    }

    /// The bits of the permission
    pub fn bits(&self) -> (b: u8)
        ensures
            b == self.value(),
            b & 0xe1u8 == 0,
    {
        proof {
            use_type_invariant(self);
        }
        self.bits
    }

    /// Whether every bit of `other` is set here
    pub fn contains(&self, other: Self) -> (b: bool)
        ensures
            b == (self.value() & other.value() == other.value()),
    {
        self.bits & other.bits == other.bits
    }
}

/// A contiguous piece of virtual memory with one way of backing and one
/// permission
#[derive(Clone, Copy, Debug, PartialEq, Eq, Structural)]
pub struct MapArea {
    pub vpn_range: VPNRange,
    pub map_type: MapType,
    pub map_perm: MapPermission,
}

impl MapArea {
    /// Whether `v` is a page of the area.
    pub open spec fn has_vpn(&self, v: int) -> bool {
        self.vpn_range.contains(v)
    }

    /// The pages of the area.
    pub open spec fn vpn_set(&self) -> Set<usize> {
        Set::new(|v: usize| self.has_vpn(v as int))
    }

    /// Number of pages of the area.
    pub open spec fn npages(&self) -> int {
        if self.vpn_range.start.0 <= self.vpn_range.end.0 {
            self.vpn_range.end.0 - self.vpn_range.start.0
        } else {
            0
        }
    }

    /// The physical page that page `v` of the area maps to, where `frames`
    /// holds the frames of framed pages.
    pub open spec fn target(&self, v: usize, frames: Map<usize, usize>) -> usize {
        match self.map_type {
            MapType::Identical => v,
            MapType::Framed => frames[v],
            MapType::Linear(offset) => (v + offset) as usize,
        }
    }

    /// The page table entry of page `v` of the area.
    pub open spec fn entry_for(&self, v: usize, frames: Map<usize, usize>) -> PageTableEntry {
        PageTableEntry { ppn: PhysPageNum(self.target(v, frames)), flags: self.map_perm.value() | PTE_V }
    }

    /// Every page of the area is mapped as the area says, and a framed page
    /// has its frame.
    pub open spec fn mapped_in(&self, mappings: Map<usize, PageTableEntry>, frames: Map<usize, usize>) -> bool {
        forall|v: usize|
            #![trigger mappings.contains_key(v)]
            #![trigger mappings[v]]
            self.has_vpn(v as int) ==> {
                &&& mappings.contains_key(v)
                &&& mappings[v] == self.entry_for(v, frames)
                &&& (self.map_type is Framed ==> frames.contains_key(v))
            }
    }

    /// Whether page `v` of a linearly mapped area can be mapped: it must be a
    /// valid SV39 page and its target must not overflow.
    pub open spec fn linear_ok(&self, v: int) -> bool {
        match self.map_type {
            MapType::Linear(offset) => v < 0x800_0000 && isize::MIN <= v + offset <= isize::MAX,
            _ => true,
        }
    }

    /// The area from the page holding `start_va` to the page holding the
    /// last byte before `end_va`
    pub fn new(start_va: VirtAddr, end_va: VirtAddr, map_type: MapType, map_perm: MapPermission) -> (a: Self)
        requires
            start_va.0 / PAGE_SIZE <= (end_va.0 + PAGE_SIZE - 1) / PAGE_SIZE as int,
        ensures
            a.vpn_range.start.0 == start_va.0 / PAGE_SIZE,
            a.vpn_range.end.0 == (end_va.0 + PAGE_SIZE - 1) / PAGE_SIZE as int,
            a.map_type == map_type,
            a.map_perm == map_perm,
    {
        let start_vpn = start_va.as_vpn_by_floor();
        let end_vpn = end_va.as_vpn_by_ceil();
        MapArea { vpn_range: VPNRange::new(start_vpn, end_vpn), map_type, map_perm }
    }

    /// Map page `vpn`, taking a fresh frame for it if the area is framed
    fn map_one(
        &self,
        page_table: &mut PageTable,
        vpn: VirtPageNum,
        allocator: &mut StackFrameAllocator,
        mem: &mut PhysMem,
    )
        requires
            !old(page_table).mappings().contains_key(vpn.0),
            self.linear_ok(vpn.0 as int),
            self.map_type is Framed ==> {
                &&& !old(page_table).frames().contains_key(vpn.0)
                &&& old(allocator).wf()
                &&& old(mem).wf()
                &&& old(allocator).end() <= old(mem).npages()
                &&& old(allocator).available() > 0
            },
        ensures
            final(page_table).root() == old(page_table).root(),
            final(page_table).mappings() == old(page_table).mappings().insert(
                vpn.0,
                self.entry_for(vpn.0, final(page_table).frames()),
            ),
            self.map_type is Framed ==> {
                let p = final(page_table).frames()[vpn.0] as int;
                &&& final(page_table).frames() == old(page_table).frames().insert(vpn.0, p as usize)
                &&& newly_allocated(*old(allocator), *final(allocator), p)
                &&& forall|q: int| q != p ==> #[trigger] final(allocator).is_allocated(q) == old(allocator).is_allocated(q)
                &&& final(allocator).wf()
                &&& final(allocator).end() == old(allocator).end()
                &&& final(allocator).available() == old(allocator).available() - 1
                &&& final(mem).wf()
                &&& final(mem).npages() == old(mem).npages()
                &&& final(mem).has(p)
                &&& forall|i: int| 0 <= i < PAGE_SIZE ==> #[trigger] final(mem).page(p)[i] == 0u8
                &&& forall|r: int| r != p && final(mem).has(r) ==> #[trigger] final(mem).page(r) == old(mem).page(r)
            },
            !(self.map_type is Framed) ==> {
                &&& final(page_table).frames() == old(page_table).frames()
                &&& *final(allocator) == *old(allocator)
                &&& *final(mem) == *old(mem)
            },
    {
        let ppn = match self.map_type {
            MapType::Identical => PhysPageNum(vpn.0),
            MapType::Framed => {
                let frame = frame_alloc(allocator, mem).unwrap();
                let frame_ppn = frame.ppn;
                page_table.insert(vpn, frame);
                frame_ppn
            },
            MapType::Linear(pn_offset) => PhysPageNum((vpn.0 as isize + pn_offset) as usize),
        };
        page_table.map(vpn, ppn, self.map_perm.bits());
    }

    /// Map every page of the area; the pages must not be mapped yet
    #[verifier::spinoff_prover]
    pub fn map(&mut self, page_table: &mut PageTable, allocator: &mut StackFrameAllocator, mem: &mut PhysMem)
        requires
            forall|v: usize| old(self).has_vpn(v as int) ==> !#[trigger] old(page_table).mappings().contains_key(v),
            forall|v: usize| old(self).has_vpn(v as int) ==> #[trigger] old(self).linear_ok(v as int),
            old(self).map_type is Framed ==> {
                &&& forall|v: usize| old(self).has_vpn(v as int) ==> !#[trigger] old(page_table).frames().contains_key(v)
                &&& old(allocator).wf()
                &&& old(mem).wf()
                &&& old(allocator).end() <= old(mem).npages()
                &&& old(allocator).available() >= old(self).npages()
            },
        ensures
            *final(self) == *old(self),
            final(page_table).root() == old(page_table).root(),
            old(self).mapped_in(final(page_table).mappings(), final(page_table).frames()),
            final(page_table).mappings().remove_keys(old(self).vpn_set())
                == old(page_table).mappings().remove_keys(old(self).vpn_set()),
            final(page_table).frames().remove_keys(old(self).vpn_set())
                == old(page_table).frames().remove_keys(old(self).vpn_set()),
            old(self).map_type is Framed ==> {
                &&& forall|v: usize| #[trigger] old(self).has_vpn(v as int) ==> {
                    let p = final(page_table).frames()[v] as int;
                    &&& newly_allocated(*old(allocator), *final(allocator), p)
                    &&& final(mem).has(p)
                    &&& forall|i: int| 0 <= i < PAGE_SIZE ==> #[trigger] final(mem).page(p)[i] == 0u8
                }
                &&& forall|v1: usize, v2: usize|
                    #![trigger final(page_table).frames()[v1], final(page_table).frames()[v2]]
                    old(self).has_vpn(v1 as int) && old(self).has_vpn(v2 as int) && v1 != v2
                        ==> final(page_table).frames()[v1] != final(page_table).frames()[v2]
                &&& forall|q: int| #[trigger] old(allocator).is_allocated(q) ==> final(allocator).is_allocated(q)
                &&& final(allocator).wf()
                &&& final(allocator).end() == old(allocator).end()
                &&& final(allocator).available() == old(allocator).available() - old(self).npages()
                &&& final(mem).wf()
                &&& final(mem).npages() == old(mem).npages()
                &&& forall|r: int|
                    final(mem).has(r) && !newly_allocated(*old(allocator), *final(allocator), r)
                        ==> #[trigger] final(mem).page(r) == old(mem).page(r)
            },
            !(old(self).map_type is Framed) ==> {
                &&& final(page_table).frames() == old(page_table).frames()
                &&& *final(allocator) == *old(allocator)
                &&& *final(mem) == *old(mem)
            },
    {
        let start = self.vpn_range.start.0;
        let end = self.vpn_range.end.0;
        let mut cur = start;
        let ghost framed = self.map_type is Framed;
        while cur < end
            invariant
                *self == *old(self),
                start == self.vpn_range.start.0,
                end == self.vpn_range.end.0,
                framed == (self.map_type is Framed),
                start <= cur,
                cur <= end || cur == start,
                forall|v: usize| self.has_vpn(v as int) ==> !#[trigger] old(page_table).mappings().contains_key(v),
                forall|v: usize| self.has_vpn(v as int) ==> #[trigger] self.linear_ok(v as int),
                framed ==> {
                    &&& forall|v: usize| self.has_vpn(v as int) ==> !#[trigger] old(page_table).frames().contains_key(v)
                    &&& old(allocator).wf()
                    &&& old(allocator).available() >= self.npages()
                },
                page_table.root() == old(page_table).root(),
                forall|v: usize| start <= v < cur ==> #[trigger] page_table.mappings().contains_key(v),
                forall|v: usize| start <= v < cur ==> #[trigger] page_table.mappings()[v] == self.entry_for(v, page_table.frames()),
                forall|v: usize| start <= v < cur && framed ==> #[trigger] page_table.frames().contains_key(v),
                forall|v: usize|
                    #![trigger page_table.mappings().contains_key(v)]
                    #![trigger page_table.mappings()[v]]
                    #![trigger page_table.frames().contains_key(v)]
                    #![trigger page_table.frames()[v]]
                    !(start <= v < cur) ==> {
                    &&& page_table.mappings().contains_key(v) == old(page_table).mappings().contains_key(v)
                    &&& (old(page_table).mappings().contains_key(v) ==> page_table.mappings()[v] == old(page_table).mappings()[v])
                    &&& page_table.frames().contains_key(v) == old(page_table).frames().contains_key(v)
                    &&& (old(page_table).frames().contains_key(v) ==> page_table.frames()[v] == old(page_table).frames()[v])
                },
                framed ==> {
                    &&& forall|v: usize| start <= v < cur ==> {
                        let p = #[trigger] page_table.frames()[v] as int;
                        &&& newly_allocated(*old(allocator), *allocator, p)
                        &&& mem.has(p)
                        &&& forall|i: int| 0 <= i < PAGE_SIZE ==> #[trigger] mem.page(p)[i] == 0u8
                    }
                    &&& forall|v1: usize, v2: usize|
                        #![trigger page_table.frames()[v1], page_table.frames()[v2]]
                        start <= v1 < cur && start <= v2 < cur && v1 != v2
                            ==> page_table.frames()[v1] != page_table.frames()[v2]
                    &&& forall|q: int| #[trigger] old(allocator).is_allocated(q) ==> allocator.is_allocated(q)
                    &&& allocator.wf()
                    &&& mem.wf()
                    &&& allocator.end() == old(allocator).end()
                    &&& allocator.end() <= mem.npages()
                    &&& allocator.available() == old(allocator).available() - (cur - start)
                    &&& mem.npages() == old(mem).npages()
                    &&& forall|r: int|
                        mem.has(r) && !newly_allocated(*old(allocator), *allocator, r)
                            ==> #[trigger] mem.page(r) == old(mem).page(r)
                },
                !framed ==> {
                    &&& page_table.frames() == old(page_table).frames()
                    &&& *allocator == *old(allocator)
                    &&& *mem == *old(mem)
                },
            decreases end - cur,
        {
            let ghost pt0 = *page_table;
            let ghost a0 = *allocator;
            let ghost m0 = *mem;
            assert(self.has_vpn(cur as int));
            assert(!page_table.mappings().contains_key(cur));
            assert(self.linear_ok(cur as int));
            self.map_one(page_table, VirtPageNum(cur), allocator, mem);
            proof {
                assert forall|v: usize| start <= v < cur + 1 implies
                        #[trigger] page_table.mappings().contains_key(v)
                        && page_table.mappings()[v] == self.entry_for(v, page_table.frames())
                        && (framed ==> page_table.frames().contains_key(v)) by {
                    if v == cur {
                        assert(page_table.mappings().contains_key(v));
                        assert(page_table.mappings()[v] == self.entry_for(v, page_table.frames()));
                        assert(framed ==> page_table.frames().contains_key(v));
                    }
                    if v != cur {
                        assert(pt0.mappings().contains_key(v));
                        assert(page_table.mappings()[v] == pt0.mappings()[v]);
                        if framed {
                            assert(pt0.frames().contains_key(v));
                            assert(page_table.frames()[v] == pt0.frames()[v]);
                        }
                        assert(self.entry_for(v, page_table.frames()) == self.entry_for(v, pt0.frames()));
                    }
                }
                assert forall|v: usize|
                    #![trigger page_table.mappings().contains_key(v)]
                    #![trigger page_table.mappings()[v]]
                    #![trigger page_table.frames().contains_key(v)]
                    #![trigger page_table.frames()[v]]
                    !(start <= v < cur + 1) implies {
                    &&& page_table.mappings().contains_key(v) == old(page_table).mappings().contains_key(v)
                    &&& (old(page_table).mappings().contains_key(v) ==> page_table.mappings()[v] == old(page_table).mappings()[v])
                    &&& page_table.frames().contains_key(v) == old(page_table).frames().contains_key(v)
                    &&& (old(page_table).frames().contains_key(v) ==> page_table.frames()[v] == old(page_table).frames()[v])
                } by {
                    assert(pt0.mappings().contains_key(v) == old(page_table).mappings().contains_key(v));
                    assert(pt0.frames().contains_key(v) == old(page_table).frames().contains_key(v));
                }
                if framed {
                    let p = page_table.frames()[cur] as int;
                    assert forall|v: usize| start <= v < cur + 1 implies {
                        let pv = #[trigger] page_table.frames()[v] as int;
                        &&& newly_allocated(*old(allocator), *allocator, pv)
                        &&& mem.has(pv)
                        &&& forall|i: int| 0 <= i < PAGE_SIZE ==> #[trigger] mem.page(pv)[i] == 0u8
                    } by {
                        if v != cur {
                            let pv = pt0.frames()[v] as int;
                            assert(page_table.frames()[v] == pt0.frames()[v]);
                            assert(a0.is_allocated(pv));
                            assert(pv != p);
                            assert(mem.page(pv) == m0.page(pv));
                        }
                    }
                    assert forall|v1: usize, v2: usize|
                        start <= v1 < cur + 1 && start <= v2 < cur + 1 && v1 != v2
                            implies #[trigger] page_table.frames()[v1] != #[trigger] page_table.frames()[v2] by {
                        if v1 == cur {
                            assert(a0.is_allocated(pt0.frames()[v2] as int));
                        } else if v2 == cur {
                            assert(a0.is_allocated(pt0.frames()[v1] as int));
                        } else {
                            assert(pt0.frames()[v1] != pt0.frames()[v2]);
                        }
                    }
                    assert forall|r: int|
                        mem.has(r) && !newly_allocated(*old(allocator), *allocator, r)
                            implies #[trigger] mem.page(r) == old(mem).page(r) by {
                        if r != p {
                            assert(allocator.is_allocated(r) == a0.is_allocated(r));
                        }
                    }
                }
            }
            cur = cur + 1;
        }
        proof {
            assert forall|v: usize| !old(self).has_vpn(v as int) implies !(start <= v < cur) by {}
            assert(page_table.mappings().remove_keys(old(self).vpn_set())
                =~= old(page_table).mappings().remove_keys(old(self).vpn_set()));
            assert(page_table.frames().remove_keys(old(self).vpn_set())
                =~= old(page_table).frames().remove_keys(old(self).vpn_set()));
        }
    }


    /// Unmap page `vpn`, giving its frame back if the area is framed
    fn unmap_one(&self, page_table: &mut PageTable, vpn: VirtPageNum, allocator: &mut StackFrameAllocator)
        requires
            old(page_table).mappings().contains_key(vpn.0),
            self.map_type is Framed ==> {
                &&& old(allocator).wf()
                &&& old(page_table).frames().contains_key(vpn.0) ==> old(allocator).is_allocated(
                    old(page_table).frames()[vpn.0] as int,
                )
            },
        ensures
            final(page_table).root() == old(page_table).root(),
            final(page_table).mappings() == old(page_table).mappings().remove(vpn.0),
            self.map_type is Framed ==> {
                &&& final(page_table).frames() == old(page_table).frames().remove(vpn.0)
                &&& final(allocator).wf()
                &&& final(allocator).current() == old(allocator).current()
                &&& final(allocator).end() == old(allocator).end()
                &&& old(page_table).frames().contains_key(vpn.0) ==> {
                    let p = old(page_table).frames()[vpn.0] as int;
                    &&& !final(allocator).is_allocated(p)
                    &&& forall|q: int| q != p ==> #[trigger] final(allocator).is_allocated(q) == old(allocator).is_allocated(q)
                }
                &&& !old(page_table).frames().contains_key(vpn.0) ==> *final(allocator) == *old(allocator)
            },
            !(self.map_type is Framed) ==> {
                &&& final(page_table).frames() == old(page_table).frames()
                &&& *final(allocator) == *old(allocator)
            },
    {
        if self.map_type == MapType::Framed {
            page_table.remove(vpn, allocator);
        }
        page_table.unmap(vpn);
    }

    /// Unmap every page of the area, giving back the frames of a framed one
    pub fn unmap(&mut self, page_table: &mut PageTable, allocator: &mut StackFrameAllocator)
        requires
            forall|v: usize| old(self).has_vpn(v as int) ==> #[trigger] old(page_table).mappings().contains_key(v),
            old(self).map_type is Framed ==> {
                &&& old(allocator).wf()
                &&& forall|v: usize|
                    old(self).has_vpn(v as int) && #[trigger] old(page_table).frames().contains_key(v)
                        ==> old(allocator).is_allocated(old(page_table).frames()[v] as int)
                &&& forall|v1: usize, v2: usize|
                    #![trigger old(page_table).frames()[v1], old(page_table).frames()[v2]]
                    old(self).has_vpn(v1 as int) && old(self).has_vpn(v2 as int) && v1 != v2
                        && old(page_table).frames().contains_key(v1) && old(page_table).frames().contains_key(v2)
                        ==> old(page_table).frames()[v1] != old(page_table).frames()[v2]
            },
        ensures
            *final(self) == *old(self),
            final(page_table).root() == old(page_table).root(),
            final(page_table).mappings() == old(page_table).mappings().remove_keys(old(self).vpn_set()),
            old(self).map_type is Framed ==> {
                &&& final(page_table).frames() == old(page_table).frames().remove_keys(old(self).vpn_set())
                &&& final(allocator).wf()
                &&& final(allocator).current() == old(allocator).current()
                &&& final(allocator).end() == old(allocator).end()
                &&& forall|v: usize|
                    old(self).has_vpn(v as int) && #[trigger] old(page_table).frames().contains_key(v)
                        ==> !final(allocator).is_allocated(old(page_table).frames()[v] as int)
                &&& forall|q: int| #[trigger] final(allocator).is_allocated(q) ==> old(allocator).is_allocated(q)
                &&& forall|q: int|
                    #[trigger] old(allocator).is_allocated(q) && !final(allocator).is_allocated(q)
                        ==> exists|v: usize| old(self).has_vpn(v as int) && old(page_table).frames().contains_key(v)
                            && old(page_table).frames()[v] == q
            },
            !(old(self).map_type is Framed) ==> {
                &&& final(page_table).frames() == old(page_table).frames()
                &&& *final(allocator) == *old(allocator)
            },
    {
        let start = self.vpn_range.start.0;
        let end = self.vpn_range.end.0;
        let mut cur = start;
        let ghost framed = self.map_type is Framed;
        while cur < end
            invariant
                *self == *old(self),
                start == self.vpn_range.start.0,
                end == self.vpn_range.end.0,
                framed == (self.map_type is Framed),
                start <= cur,
                cur <= end || cur == start,
                page_table.root() == old(page_table).root(),
                forall|v: usize|
                    #![trigger page_table.mappings().contains_key(v)]
                    #![trigger old(page_table).mappings().contains_key(v)]
                    page_table.mappings().contains_key(v) == (old(page_table).mappings().contains_key(v) && !(start <= v < cur)),
                forall|v: usize|
                    #![trigger page_table.mappings()[v]]
                    page_table.mappings().contains_key(v) ==> page_table.mappings()[v] == old(page_table).mappings()[v],
                forall|v: usize| self.has_vpn(v as int) ==> #[trigger] old(page_table).mappings().contains_key(v),
                framed ==> {
                    &&& forall|v: usize|
                        #![trigger page_table.frames().contains_key(v)]
                        #![trigger old(page_table).frames().contains_key(v)]
                        page_table.frames().contains_key(v) == (old(page_table).frames().contains_key(v) && !(start <= v < cur))
                    &&& forall|v: usize|
                        #![trigger page_table.frames()[v]]
                        page_table.frames().contains_key(v) ==> page_table.frames()[v] == old(page_table).frames()[v]
                    &&& allocator.wf()
                    &&& allocator.current() == old(allocator).current()
                    &&& allocator.end() == old(allocator).end()
                    &&& forall|v: usize|
                        self.has_vpn(v as int) && #[trigger] old(page_table).frames().contains_key(v)
                            ==> (allocator.is_allocated(old(page_table).frames()[v] as int) <==> cur <= v)
                    &&& forall|v1: usize, v2: usize|
                        #![trigger old(page_table).frames()[v1], old(page_table).frames()[v2]]
                        self.has_vpn(v1 as int) && self.has_vpn(v2 as int) && v1 != v2
                            && old(page_table).frames().contains_key(v1) && old(page_table).frames().contains_key(v2)
                            ==> old(page_table).frames()[v1] != old(page_table).frames()[v2]
                    &&& forall|q: int| #[trigger] allocator.is_allocated(q) ==> old(allocator).is_allocated(q)
                    &&& forall|q: int|
                        #[trigger] old(allocator).is_allocated(q) && !allocator.is_allocated(q)
                            ==> exists|v: usize| self.has_vpn(v as int) && old(page_table).frames().contains_key(v)
                                && old(page_table).frames()[v] == q
                },
                !framed ==> {
                    &&& page_table.frames() == old(page_table).frames()
                    &&& *allocator == *old(allocator)
                },
            decreases end - cur,
        {
            let ghost pt0 = *page_table;
            let ghost a0 = *allocator;
            assert(self.has_vpn(cur as int));
            assert(old(page_table).mappings().contains_key(cur));
            proof {
                if framed && pt0.frames().contains_key(cur) {
                    assert(old(page_table).frames().contains_key(cur));
                }
            }
            self.unmap_one(page_table, VirtPageNum(cur), allocator);
            proof {
                if framed && pt0.frames().contains_key(cur) {
                    let p = pt0.frames()[cur] as int;
                    assert forall|v: usize|
                        self.has_vpn(v as int) && #[trigger] old(page_table).frames().contains_key(v)
                            implies (allocator.is_allocated(old(page_table).frames()[v] as int) <==> cur + 1 <= v) by {
                        if v != cur {
                            assert(old(page_table).frames()[v] != old(page_table).frames()[cur]);
                        }
                    }
                    assert forall|q: int|
                        #[trigger] old(allocator).is_allocated(q) && !allocator.is_allocated(q)
                            implies exists|v: usize| self.has_vpn(v as int) && old(page_table).frames().contains_key(v)
                                && old(page_table).frames()[v] == q by {
                        if q == p {
                            assert(self.has_vpn(cur as int));
                        }
                    }
                }
                if framed && !pt0.frames().contains_key(cur) {
                    assert forall|v: usize|
                        self.has_vpn(v as int) && #[trigger] old(page_table).frames().contains_key(v)
                            implies (allocator.is_allocated(old(page_table).frames()[v] as int) <==> cur + 1 <= v) by {
                        if v == cur {
                            assert(pt0.frames().contains_key(cur) == (old(page_table).frames().contains_key(cur) && !(start <= cur < cur)));
                        }
                    }
                }
            }
            cur = cur + 1;
        }
        proof {
            assert forall|v: usize| old(self).has_vpn(v as int) <==> (start <= v < cur) by {}
            assert(page_table.mappings() =~= old(page_table).mappings().remove_keys(old(self).vpn_set()));
            if framed {
                assert(page_table.frames() =~= old(page_table).frames().remove_keys(old(self).vpn_set()));
            }
        }
    }


    /// The physical page that page `v` is mapped to in `page_table`.
    pub open spec fn ppn_in(page_table: PageTable, v: int) -> int {
        page_table.mappings()[v as usize].ppn.0 as int
    }

    /// Whether some page of the area is mapped to physical page `p`.
    pub open spec fn covers_ppn(&self, page_table: PageTable, p: int) -> bool {
        exists|v: usize| self.has_vpn(v as int) && Self::ppn_in(page_table, v as int) == p
    }

    /// Copy `data` to the start of a framed area: byte `i` goes to offset
    /// `i % PAGE_SIZE` of the `i / PAGE_SIZE`-th page
    pub fn copy_data(&mut self, page_table: &PageTable, data: &[u8], mem: &mut PhysMem)
        requires
            old(self).map_type is Framed,
            old(mem).wf(),
            data@.len() <= old(self).npages() * PAGE_SIZE,
            forall|v: usize| #![trigger page_table.mappings().contains_key(v)] old(self).has_vpn(v as int) ==> {
                &&& page_table.mappings().contains_key(v)
                &&& old(mem).has(Self::ppn_in(*page_table, v as int))
            },
            forall|v1: usize, v2: usize|
                #![trigger page_table.mappings()[v1], page_table.mappings()[v2]]
                old(self).has_vpn(v1 as int) && old(self).has_vpn(v2 as int) && v1 != v2
                    ==> page_table.mappings()[v1].ppn != page_table.mappings()[v2].ppn,
        ensures
            *final(self) == *old(self),
            final(mem).wf(),
            final(mem).npages() == old(mem).npages(),
            forall|i: int| 0 <= i < data@.len() ==> #[trigger] final(mem).page(
                Self::ppn_in(*page_table, old(self).vpn_range.start.0 + i / PAGE_SIZE as int),
            )[i % PAGE_SIZE as int] == data@[i],
            forall|k: int, j: int|
                0 <= k < old(self).npages() && 0 <= j < PAGE_SIZE && k * PAGE_SIZE + j >= data@.len()
                    ==> #[trigger] final(mem).page(Self::ppn_in(*page_table, old(self).vpn_range.start.0 + k))[j]
                        == old(mem).page(Self::ppn_in(*page_table, old(self).vpn_range.start.0 + k))[j],
            forall|p: int| final(mem).has(p) && !old(self).covers_ppn(*page_table, p)
                ==> #[trigger] final(mem).page(p) == old(mem).page(p),
    {
        let start = self.vpn_range.start.0;
        let n = data.len();
        let mut i: usize = 0;
        assert forall|v: usize| #![trigger page_table.mappings().contains_key(v)] self.has_vpn(v as int) implies {
            &&& page_table.mappings().contains_key(v)
            &&& old(mem).has(Self::ppn_in(*page_table, v as int))
        } by {
            assert(old(self).has_vpn(v as int));
            if page_table.mappings().contains_key(v) {}
        }
        while i < n
            invariant
                *self == *old(self),
                start == self.vpn_range.start.0,
                n == data@.len(),
                i <= n,
                n <= self.npages() * PAGE_SIZE,
                mem.wf(),
                mem.npages() == old(mem).npages(),
                forall|v: usize| #![trigger page_table.mappings().contains_key(v)] self.has_vpn(v as int) ==> {
                    &&& page_table.mappings().contains_key(v)
                    &&& old(mem).has(Self::ppn_in(*page_table, v as int))
                },
                forall|v1: usize, v2: usize|
                    #![trigger page_table.mappings()[v1], page_table.mappings()[v2]]
                    self.has_vpn(v1 as int) && self.has_vpn(v2 as int) && v1 != v2
                        ==> page_table.mappings()[v1].ppn != page_table.mappings()[v2].ppn,
                forall|k: int| 0 <= k < i ==> #[trigger] mem.page(
                    Self::ppn_in(*page_table, start + k / PAGE_SIZE as int),
                )[k % PAGE_SIZE as int] == data@[k],
                forall|k: int, j: int|
                    0 <= k < self.npages() && 0 <= j < PAGE_SIZE && k * PAGE_SIZE + j >= i
                        ==> #[trigger] mem.page(Self::ppn_in(*page_table, start + k))[j]
                            == old(mem).page(Self::ppn_in(*page_table, start + k))[j],
                forall|p: int| mem.has(p) && !self.covers_ppn(*page_table, p)
                    ==> #[trigger] mem.page(p) == old(mem).page(p),
            decreases n - i,
        {
            let ghost m0 = *mem;
            let q = i / PAGE_SIZE;
            let off = i % PAGE_SIZE;
            assert(q < self.npages()) by (nonlinear_arith)
                requires
                    q == i / 4096,
                    i < self.npages() * 4096,
            ;
            let vpn = VirtPageNum(start + q);
            assert(self.has_vpn(vpn.0 as int));
            let ppn = page_table.translate(vpn).unwrap().ppn();
            proof {
                assert(page_table.mappings().contains_key(vpn.0));
                m0.lemma_page_len(ppn.0 as int);
            }
            mem.write_byte(ppn.0, off, data[i]);
            proof {
                assert(i == q * 4096 + off) by (nonlinear_arith)
                    requires
                        q == i / 4096,
                        off == i % 4096,
                ;
                assert forall|k: int| 0 <= k < i + 1 implies #[trigger] mem.page(
                    Self::ppn_in(*page_table, start + k / PAGE_SIZE as int),
                )[k % PAGE_SIZE as int] == data@[k] by {
                    let kq = k / 4096;
                    let kr = k % 4096;
                    assert(k == kq * 4096 + kr && 0 <= kr < 4096 && 0 <= kq) by (nonlinear_arith)
                        requires
                            kq == k / 4096,
                            kr == k % 4096,
                            0 <= k,
                    ;
                    let pk = Self::ppn_in(*page_table, start + kq);
                    if k < i {
                        assert(kq < self.npages()) by (nonlinear_arith)
                            requires
                                kq == k / 4096,
                                k < self.npages() * 4096,
                                0 <= k,
                        ;
                        let vk = (start + kq) as usize;
                        assert(self.has_vpn(vk as int));
                        if kq != q {
                            assert(page_table.mappings()[vk].ppn != page_table.mappings()[vpn.0].ppn);
                            assert(page_table.mappings().contains_key(vk));
                            assert(old(mem).has(pk));
                        } else {
                            assert(kr != off);
                        }
                    }
                }
                assert forall|k: int, j: int|
                    0 <= k < self.npages() && 0 <= j < PAGE_SIZE && k * PAGE_SIZE + j >= i + 1
                        implies #[trigger] mem.page(Self::ppn_in(*page_table, start + k))[j]
                            == old(mem).page(Self::ppn_in(*page_table, start + k))[j] by {
                    let vk = (start + k) as usize;
                    assert(self.has_vpn(vk as int));
                    assert(page_table.mappings().contains_key(vk));
                    assert(old(mem).has(Self::ppn_in(*page_table, start + k)));
                    if k != q {
                        assert(page_table.mappings()[vk].ppn != page_table.mappings()[vpn.0].ppn);
                    } else {
                        assert(j != off);
                    }
                }
                assert forall|p: int| mem.has(p) && !self.covers_ppn(*page_table, p)
                    implies #[trigger] mem.page(p) == old(mem).page(p) by {
                    if p == ppn.0 {
                        assert(self.has_vpn(vpn.0 as int) && Self::ppn_in(*page_table, vpn.0 as int) == p);
                    }
                }
            }
            i = i + 1;
        }
    }

}

/// An address space: a page table and the areas mapped in it
pub struct MemorySet {
    page_table: PageTable,
    areas: Vec<MapArea>,
}

impl MemorySet {
    /// The page table.
    pub closed spec fn pt(&self) -> PageTable {
        self.page_table
    }

    /// The areas, in the order they were added.
    pub closed spec fn areas(&self) -> Seq<MapArea> {
        self.areas@
    }

    /// Which entry each mapped virtual page has.
    pub open spec fn mappings(&self) -> Map<usize, PageTableEntry> {
        self.pt().mappings()
    }

    /// The frame of each framed virtual page.
    pub open spec fn frames(&self) -> Map<usize, usize> {
        self.pt().frames()
    }

    /// Every area is mapped as it says, no two areas share a page, a page
    /// with a frame is mapped to it, no two pages share a frame, and only
    /// framed areas have frames.
    pub closed spec fn wf(&self) -> bool {
        let mappings = self.mappings();
        let frames = self.frames();
        let areas = self.areas();
        &&& forall|i: int| 0 <= i < areas.len() ==> #[trigger] areas[i].mapped_in(mappings, frames)
        &&& forall|i: int, j: int, v: int|
            0 <= i < areas.len() && 0 <= j < areas.len() && i != j && #[trigger] areas[i].has_vpn(v)
                ==> !#[trigger] areas[j].has_vpn(v)
        &&& forall|v: usize| #[trigger] frames.contains_key(v) ==> mappings.contains_key(v) && mappings[v].ppn.0 == frames[v]
        &&& forall|v1: usize, v2: usize|
            #![trigger frames[v1], frames[v2]]
            frames.contains_key(v1) && frames.contains_key(v2) && v1 != v2 ==> frames[v1] != frames[v2]
        &&& forall|i: int, v: usize|
            0 <= i < areas.len() && #[trigger] areas[i].has_vpn(v as int) && !(areas[i].map_type is Framed)
                ==> !#[trigger] frames.contains_key(v)
    }

    /// A page with a frame is mapped to it, and no two pages share a frame.
    pub proof fn lemma_frames(&self)
        requires
            self.wf(),
        ensures
            forall|v: usize| #[trigger] self.frames().contains_key(v)
                ==> self.mappings().contains_key(v) && self.mappings()[v].ppn.0 == self.frames()[v],
            forall|v1: usize, v2: usize|
                #![trigger self.frames()[v1], self.frames()[v2]]
                self.frames().contains_key(v1) && self.frames().contains_key(v2) && v1 != v2
                    ==> self.frames()[v1] != self.frames()[v2],
    {
    }

    /// Every area is mapped as it says.
    pub proof fn lemma_areas_mapped(&self)
        requires
            self.wf(),
        ensures
            forall|i: int| 0 <= i < self.areas().len() ==> #[trigger] self.areas()[i].mapped_in(self.mappings(), self.frames()),
    {
    }

    /// The page table
    pub fn page_table(&self) -> (pt: &PageTable)
        ensures
            *pt == self.pt(),
    {
        &self.page_table
    }

    /// Every frame of the space is handed out by `allocator`.
    pub open spec fn frames_allocated(&self, allocator: StackFrameAllocator) -> bool {
        forall|v: usize| #[trigger] self.frames().contains_key(v) ==> allocator.is_allocated(self.frames()[v] as int)
    }

    /// An address space with nothing mapped, whose page table root is a fresh
    /// frame
    pub fn new_bare(allocator: &mut StackFrameAllocator, mem: &mut PhysMem) -> (ms: Self)
        requires
            old(allocator).wf(),
            old(mem).wf(),
            old(allocator).end() <= old(mem).npages(),
            old(allocator).available() > 0,
        ensures
            ms.wf(),
            ms.areas() == Seq::<MapArea>::empty(),
            ms.mappings() == Map::<usize, PageTableEntry>::empty(),
            ms.frames() == Map::<usize, usize>::empty(),
            newly_allocated(*old(allocator), *final(allocator), ms.pt().root() as int),
            forall|q: int| q != ms.pt().root() ==> #[trigger] final(allocator).is_allocated(q) == old(allocator).is_allocated(q),
            final(allocator).wf(),
            final(allocator).end() == old(allocator).end(),
            final(allocator).available() == old(allocator).available() - 1,
            final(mem).wf(),
            final(mem).npages() == old(mem).npages(),
            forall|r: int| r != ms.pt().root() && final(mem).has(r) ==> #[trigger] final(mem).page(r) == old(mem).page(r),
    {
        let root = frame_alloc(allocator, mem).unwrap();
        MemorySet { page_table: PageTable::new(root), areas: Vec::new() }
    }

    /// The entry of `vpn`, if it is mapped
    pub fn translate(&self, vpn: VirtPageNum) -> (e: Option<PageTableEntry>)
        ensures
            e == (if self.mappings().contains_key(vpn.0) { Some(self.mappings()[vpn.0]) } else { None::<PageTableEntry> }),
    {
        self.page_table.translate(vpn)
    }

    /// The `satp` value selecting this space's page table in SV39 mode
    pub fn token(&self) -> (t: usize)
        requires
            self.pt().root() < 0x1000_0000_0000,
        ensures
            usize::BITS == 64 ==> t as int == 0x8000_0000_0000_0000int + self.pt().root(),
    {
        self.page_table.token()
    }

    /// Add `map_area`, mapping its pages and copying `data` to its start;
    /// the area's pages must not be mapped yet
    pub fn push(
        &mut self,
        map_area: MapArea,
        data: Option<&[u8]>,
        allocator: &mut StackFrameAllocator,
        mem: &mut PhysMem,
    )
        requires
            old(self).wf(),
            old(self).frames_allocated(*old(allocator)),
            forall|v: usize| map_area.has_vpn(v as int) ==> !#[trigger] old(self).mappings().contains_key(v),
            forall|v: usize| map_area.has_vpn(v as int) ==> #[trigger] map_area.linear_ok(v as int),
            map_area.map_type is Framed ==> {
                &&& old(allocator).wf()
                &&& old(mem).wf()
                &&& old(allocator).end() <= old(mem).npages()
                &&& old(allocator).available() >= map_area.npages()
            },
            data matches Some(d) ==> map_area.map_type is Framed && d@.len() <= map_area.npages() * PAGE_SIZE,
        ensures
            final(self).wf(),
            final(self).frames_allocated(*final(allocator)),
            final(self).areas() == old(self).areas().push(map_area),
            final(self).pt().root() == old(self).pt().root(),
            map_area.mapped_in(final(self).mappings(), final(self).frames()),
            final(self).mappings().remove_keys(map_area.vpn_set()) == old(self).mappings().remove_keys(map_area.vpn_set()),
            final(self).frames().remove_keys(map_area.vpn_set()) == old(self).frames().remove_keys(map_area.vpn_set()),
            map_area.map_type is Framed ==> {
                &&& forall|v: usize| #[trigger] map_area.has_vpn(v as int) ==> {
                    &&& newly_allocated(*old(allocator), *final(allocator), final(self).frames()[v] as int)
                    &&& final(mem).has(final(self).frames()[v] as int)
                }
                &&& forall|k: int, j: int|
                    0 <= k < map_area.npages() && 0 <= j < PAGE_SIZE ==> #[trigger] final(mem).page(
                        final(self).frames()[(map_area.vpn_range.start.0 + k) as usize] as int,
                    )[j] == initial_byte(data, k * PAGE_SIZE + j)
                &&& forall|q: int| #[trigger] old(allocator).is_allocated(q) ==> final(allocator).is_allocated(q)
                &&& final(allocator).wf()
                &&& final(allocator).end() == old(allocator).end()
                &&& final(allocator).available() == old(allocator).available() - map_area.npages()
                &&& final(mem).wf()
                &&& final(mem).npages() == old(mem).npages()
                &&& forall|r: int|
                    final(mem).has(r) && !newly_allocated(*old(allocator), *final(allocator), r)
                        ==> #[trigger] final(mem).page(r) == old(mem).page(r)
            },
            !(map_area.map_type is Framed) ==> {
                &&& final(self).frames() == old(self).frames()
                &&& *final(allocator) == *old(allocator)
                &&& *final(mem) == *old(mem)
            },
    {
        let mut map_area = map_area;
        let ghost a0 = *old(allocator);
        let ghost m0 = *old(mem);
        assert forall|v: usize| map_area.has_vpn(v as int) implies !#[trigger] self.page_table.frames().contains_key(v) by {
            if self.page_table.frames().contains_key(v) {
                assert(self.frames().contains_key(v));
                assert(self.mappings().contains_key(v));
            }
        }
        assert forall|v: usize| map_area.has_vpn(v as int) implies !#[trigger] self.page_table.mappings().contains_key(v) by {
            assert(!self.mappings().contains_key(v));
        }
        map_area.map(&mut self.page_table, allocator, mem);
        let ghost m1 = *mem;
        let ghost framed = map_area.map_type is Framed;
        let ghost pt = self.page_table;
        proof {
            if framed {
                assert forall|v: usize| #![trigger pt.mappings().contains_key(v)] map_area.has_vpn(v as int) implies {
                    &&& pt.mappings().contains_key(v)
                    &&& m1.has(MapArea::ppn_in(pt, v as int))
                } by {
                    if pt.mappings().contains_key(v) {}
                    assert(pt.frames().contains_key(v));
                }
                assert forall|v1: usize, v2: usize|
                    map_area.has_vpn(v1 as int) && map_area.has_vpn(v2 as int) && v1 != v2
                        implies #[trigger] pt.mappings()[v1].ppn != #[trigger] pt.mappings()[v2].ppn by {
                    assert(pt.frames()[v1] != pt.frames()[v2]);
                }
            }
        }
        match data {
            Some(d) => {
                map_area.copy_data(&self.page_table, d, mem);
            },
            None => {},
        }
        self.areas.push(map_area);
        proof {
            let s0 = old(self).areas();
            let s1 = self.areas();
            let fr = self.frames();
            let mp = self.mappings();
            let vs = map_area.vpn_set();
            assert forall|v: usize| !map_area.has_vpn(v as int) implies {
                &&& mp.contains_key(v) == old(self).mappings().contains_key(v)
                &&& (mp.contains_key(v) ==> mp[v] == old(self).mappings()[v])
                &&& fr.contains_key(v) == old(self).frames().contains_key(v)
                &&& (fr.contains_key(v) ==> fr[v] == old(self).frames()[v])
            } by {
                assert(!vs.contains(v));
                assert(mp.remove_keys(vs).contains_key(v) == old(self).mappings().remove_keys(vs).contains_key(v));
                assert(fr.remove_keys(vs).contains_key(v) == old(self).frames().remove_keys(vs).contains_key(v));
                if mp.contains_key(v) {
                    assert(mp.remove_keys(vs)[v] == old(self).mappings().remove_keys(vs)[v]);
                }
                if fr.contains_key(v) {
                    assert(fr.remove_keys(vs)[v] == old(self).frames().remove_keys(vs)[v]);
                }
            }
            // the old areas lie outside the new one and keep their mappings
            assert forall|i: int| 0 <= i < s1.len() implies #[trigger] s1[i].mapped_in(mp, fr) by {
                if i < s0.len() {
                    assert(s1[i] == s0[i]);
                    assert(s0[i].mapped_in(old(self).mappings(), old(self).frames()));
                    assert forall|v: usize| #![trigger mp.contains_key(v)] #![trigger mp[v]] s1[i].has_vpn(v as int) implies {
                        &&& mp.contains_key(v)
                        &&& mp[v] == s1[i].entry_for(v, fr)
                        &&& (s1[i].map_type is Framed ==> fr.contains_key(v))
                    } by {
                        assert(old(self).mappings().contains_key(v));
                        assert(!map_area.has_vpn(v as int));
                        if s1[i].map_type is Framed {
                            assert(old(self).frames().contains_key(v));
                        }
                    }
                }
            }
            assert forall|i: int, j: int, v: int|
                0 <= i < s1.len() && 0 <= j < s1.len() && i != j && #[trigger] s1[i].has_vpn(v)
                    implies !#[trigger] s1[j].has_vpn(v) by {
                if i < s0.len() && j < s0.len() {
                    assert(s1[i] == s0[i] && s1[j] == s0[j]);
                } else if i < s0.len() {
                    assert(s0[i].mapped_in(old(self).mappings(), old(self).frames()));
                    assert(old(self).mappings().contains_key(v as usize));
                } else {
                    assert(s0[j].mapped_in(old(self).mappings(), old(self).frames()));
                    if s1[j].has_vpn(v) {
                        assert(old(self).mappings().contains_key(v as usize));
                    }
                }
            }
            assert forall|v: usize| #[trigger] fr.contains_key(v) implies mp.contains_key(v) && mp[v].ppn.0 == fr[v] by {
                if map_area.has_vpn(v as int) {
                    if !framed {
                        assert(old(self).frames().contains_key(v));
                        assert(old(self).mappings().contains_key(v));
                    }
                }
            }
            assert forall|v1: usize, v2: usize|
                fr.contains_key(v1) && fr.contains_key(v2) && v1 != v2 implies #[trigger] fr[v1] != #[trigger] fr[v2] by {
                let in1 = map_area.has_vpn(v1 as int);
                let in2 = map_area.has_vpn(v2 as int);
                if framed {
                    if in1 && !in2 {
                        assert(old(self).frames().contains_key(v2));
                        assert(a0.is_allocated(fr[v2] as int));
                    } else if !in1 && in2 {
                        assert(old(self).frames().contains_key(v1));
                        assert(a0.is_allocated(fr[v1] as int));
                    } else if !in1 && !in2 {
                        assert(old(self).frames()[v1] != old(self).frames()[v2]);
                    }
                } else {
                    if in1 {
                        assert(old(self).frames().contains_key(v1));
                        assert(old(self).mappings().contains_key(v1));
                    }
                    if in2 {
                        assert(old(self).frames().contains_key(v2));
                        assert(old(self).mappings().contains_key(v2));
                    }
                    assert(old(self).frames()[v1] != old(self).frames()[v2]);
                }
            }
            assert forall|i: int, v: usize|
                0 <= i < s1.len() && #[trigger] s1[i].has_vpn(v as int) && !(s1[i].map_type is Framed)
                    implies !#[trigger] fr.contains_key(v) by {
                if i < s0.len() {
                    assert(s1[i] == s0[i]);
                    assert(s0[i].mapped_in(old(self).mappings(), old(self).frames()));
                    assert(old(self).mappings().contains_key(v));
                    assert(!map_area.has_vpn(v as int));
                    assert(!old(self).frames().contains_key(v));
                } else {
                    assert(s1[i] == map_area);
                    if fr.contains_key(v) {
                        assert(old(self).frames().contains_key(v));
                        assert(old(self).mappings().contains_key(v));
                    }
                }
            }
            assert forall|v: usize| #[trigger] fr.contains_key(v) implies allocator.is_allocated(fr[v] as int) by {
                if !(framed && map_area.has_vpn(v as int)) {
                    if map_area.has_vpn(v as int) {
                        assert(old(self).frames().contains_key(v));
                        assert(old(self).mappings().contains_key(v));
                    }
                    assert(old(self).frames().contains_key(v));
                    assert(a0.is_allocated(fr[v] as int));
                }
            }
            if framed {
                assert forall|k: int, j: int|
                    0 <= k < map_area.npages() && 0 <= j < PAGE_SIZE implies #[trigger] mem.page(
                        fr[(map_area.vpn_range.start.0 + k) as usize] as int,
                    )[j] == initial_byte(data, k * PAGE_SIZE + j) by {
                    let v = (map_area.vpn_range.start.0 + k) as usize;
                    assert(map_area.has_vpn(v as int));
                    assert(mp.contains_key(v));
                    assert(fr.contains_key(v));
                    let i = k * 4096 + j;
                    assert(i / 4096 == k && i % 4096 == j) by (nonlinear_arith)
                        requires
                            i == k * 4096 + j,
                            0 <= j < 4096,
                            0 <= k,
                    ;
                    assert(m1.page(fr[v] as int)[j] == 0u8);
                }
            }
        }
    }

    /// Add a framed area from `start_va` to `end_va`; its pages must not be
    /// mapped yet
    pub fn insert_framed_area(
        &mut self,
        start_va: VirtAddr,
        end_va: VirtAddr,
        permission: MapPermission,
        allocator: &mut StackFrameAllocator,
        mem: &mut PhysMem,
    )
        requires
            old(self).wf(),
            old(self).frames_allocated(*old(allocator)),
            start_va.0 / PAGE_SIZE <= (end_va.0 + PAGE_SIZE - 1) / PAGE_SIZE as int,
            forall|v: usize|
                start_va.0 / PAGE_SIZE <= v < (end_va.0 + PAGE_SIZE - 1) / PAGE_SIZE as int
                    ==> !#[trigger] old(self).mappings().contains_key(v),
            old(allocator).wf(),
            old(mem).wf(),
            old(allocator).end() <= old(mem).npages(),
            old(allocator).available() >= (end_va.0 + PAGE_SIZE - 1) / PAGE_SIZE as int - start_va.0 / PAGE_SIZE,
        ensures
            final(self).wf(),
            final(self).frames_allocated(*final(allocator)),
            ({
                let area = MapArea {
                    vpn_range: VPNRange {
                        start: VirtPageNum((start_va.0 / PAGE_SIZE) as usize),
                        end: VirtPageNum(((end_va.0 + PAGE_SIZE - 1) / PAGE_SIZE as int) as usize),
                    },
                    map_type: MapType::Framed,
                    map_perm: permission,
                };
                &&& final(self).areas() == old(self).areas().push(area)
                &&& area.mapped_in(final(self).mappings(), final(self).frames())
                &&& final(self).mappings().remove_keys(area.vpn_set()) == old(self).mappings().remove_keys(area.vpn_set())
                &&& final(self).frames().remove_keys(area.vpn_set()) == old(self).frames().remove_keys(area.vpn_set())
                &&& forall|v: usize| #[trigger] area.has_vpn(v as int) ==> {
                    &&& newly_allocated(*old(allocator), *final(allocator), final(self).frames()[v] as int)
                    &&& final(mem).has(final(self).frames()[v] as int)
                    &&& forall|j: int| 0 <= j < PAGE_SIZE ==> #[trigger] final(mem).page(final(self).frames()[v] as int)[j] == 0u8
                }
                &&& final(allocator).available() == old(allocator).available() - area.npages()
            }),
            final(self).pt().root() == old(self).pt().root(),
            forall|q: int| #[trigger] old(allocator).is_allocated(q) ==> final(allocator).is_allocated(q),
            final(allocator).wf(),
            final(allocator).end() == old(allocator).end(),
            final(mem).wf(),
            final(mem).npages() == old(mem).npages(),
            forall|r: int|
                final(mem).has(r) && !newly_allocated(*old(allocator), *final(allocator), r)
                    ==> #[trigger] final(mem).page(r) == old(mem).page(r),
    {
        let area = MapArea::new(start_va, end_va, MapType::Framed, permission);
        self.push(area, None, allocator, mem);
        proof {
            assert forall|v: usize| #[trigger] area.has_vpn(v as int) implies
                forall|j: int| 0 <= j < PAGE_SIZE ==> #[trigger] mem.page(self.frames()[v] as int)[j] == 0u8 by {
                let k = v - area.vpn_range.start.0;
                assert forall|j: int| 0 <= j < PAGE_SIZE implies #[trigger] mem.page(self.frames()[v] as int)[j] == 0u8 by {
                    assert(mem.page(self.frames()[(area.vpn_range.start.0 + k) as usize] as int)[j]
                        == initial_byte(None, k * PAGE_SIZE + j));
                }
            }
        }
    }


    /// Remove the first area starting at `start_vpn`, unmapping its pages and
    /// giving back its frames
    pub fn remove_area_with_start_vpn(&mut self, start_vpn: VirtPageNum, allocator: &mut StackFrameAllocator)
        requires
            old(self).wf(),
            old(self).frames_allocated(*old(allocator)),
            old(allocator).wf(),
        ensures
            final(self).wf(),
            final(self).frames_allocated(*final(allocator)),
            final(allocator).wf(),
            final(self).pt().root() == old(self).pt().root(),
            (forall|i: int| 0 <= i < old(self).areas().len() ==> #[trigger] old(self).areas()[i].vpn_range.start != start_vpn)
                ==> *final(self) == *old(self) && *final(allocator) == *old(allocator),
            forall|idx: int| #[trigger] first_with_start(old(self).areas(), start_vpn, idx) ==> {
                let area = old(self).areas()[idx];
                &&& final(self).areas() == old(self).areas().remove(idx)
                &&& final(self).mappings() == old(self).mappings().remove_keys(area.vpn_set())
                &&& area.map_type is Framed ==> {
                    &&& final(self).frames() == old(self).frames().remove_keys(area.vpn_set())
                    &&& final(allocator).current() == old(allocator).current()
                    &&& final(allocator).end() == old(allocator).end()
                    &&& forall|v: usize|
                        area.has_vpn(v as int) && #[trigger] old(self).frames().contains_key(v)
                            ==> !final(allocator).is_allocated(old(self).frames()[v] as int)
                    &&& forall|q: int| #[trigger] final(allocator).is_allocated(q) ==> old(allocator).is_allocated(q)
                }
                &&& !(area.map_type is Framed) ==> {
                    &&& final(self).frames() == old(self).frames()
                    &&& *final(allocator) == *old(allocator)
                }
            },
    {
        let mut idx: usize = 0;
        let n = self.areas.len();
        while idx < n
            invariant_except_break
                forall|j: int| 0 <= j < idx ==> #[trigger] self.areas@[j].vpn_range.start != start_vpn,
            invariant
                idx <= n,
                n == self.areas@.len(),
                *self == *old(self),
            ensures
                idx < n ==> first_with_start(self.areas@, start_vpn, idx as int),
                idx >= n ==> forall|j: int| 0 <= j < n ==> #[trigger] self.areas@[j].vpn_range.start != start_vpn,
            decreases n - idx,
        {
            if self.areas[idx].vpn_range.start == start_vpn {
                break;
            }
            idx = idx + 1;
        }
        if idx < n {
            let mut area = self.areas[idx];
            let ghost areas0 = self.areas@;
            let ghost fr0 = self.frames();
            let ghost mp0 = self.mappings();
            let ghost a0 = *allocator;
            proof {
                assert(areas0[idx as int].mapped_in(mp0, fr0));
                assert forall|v: usize| area.has_vpn(v as int) implies #[trigger] self.page_table.mappings().contains_key(v) by {
                    assert(mp0.contains_key(v));
                }
                if area.map_type is Framed {
                    assert forall|v: usize|
                        area.has_vpn(v as int) && #[trigger] self.page_table.frames().contains_key(v)
                            implies allocator.is_allocated(self.page_table.frames()[v] as int) by {
                        assert(fr0.contains_key(v));
                    }
                    assert forall|v1: usize, v2: usize|
                        area.has_vpn(v1 as int) && area.has_vpn(v2 as int) && v1 != v2
                            && self.page_table.frames().contains_key(v1) && self.page_table.frames().contains_key(v2)
                            implies #[trigger] self.page_table.frames()[v1] != #[trigger] self.page_table.frames()[v2] by {
                        assert(fr0[v1] != fr0[v2]);
                    }
                }
            }
            area.unmap(&mut self.page_table, allocator);
            self.areas.remove(idx);
            proof {
                let i0 = idx as int;
                let s1 = self.areas@;
                let mp = self.mappings();
                let fr = self.frames();
                let vs = area.vpn_set();
                let framed = area.map_type is Framed;
                assert(s1 == areas0.remove(i0));
                assert forall|i: int| 0 <= i < s1.len() implies #[trigger] s1[i].mapped_in(mp, fr) by {
                    let oi = if i < i0 { i } else { i + 1 };
                    assert(s1[i] == areas0[oi]);
                    assert(areas0[oi].mapped_in(mp0, fr0));
                    assert forall|v: usize| #![trigger mp.contains_key(v)] #![trigger mp[v]] s1[i].has_vpn(v as int) implies {
                        &&& mp.contains_key(v)
                        &&& mp[v] == s1[i].entry_for(v, fr)
                        &&& (s1[i].map_type is Framed ==> fr.contains_key(v))
                    } by {
                        assert(mp0.contains_key(v));
                        assert(areas0[oi].has_vpn(v as int));
                        assert(!areas0[i0].has_vpn(v as int));
                        assert(!vs.contains(v));
                        if s1[i].map_type is Framed {
                            assert(fr0.contains_key(v));
                        }
                    }
                }
                assert forall|i: int, j: int, v: int|
                    0 <= i < s1.len() && 0 <= j < s1.len() && i != j && #[trigger] s1[i].has_vpn(v)
                        implies !#[trigger] s1[j].has_vpn(v) by {
                    let oi = if i < i0 { i } else { i + 1 };
                    let oj = if j < i0 { j } else { j + 1 };
                    assert(s1[i] == areas0[oi] && s1[j] == areas0[oj]);
                    assert(areas0[oi].has_vpn(v));
                }
                assert forall|v: usize| #[trigger] fr.contains_key(v) implies mp.contains_key(v) && mp[v].ppn.0 == fr[v] by {
                    assert(fr0.contains_key(v));
                    if vs.contains(v) {
                        assert(area.has_vpn(v as int));
                        assert(!(areas0[i0].map_type is Framed) ==> !fr0.contains_key(v));
                    }
                }
                assert forall|v1: usize, v2: usize|
                    fr.contains_key(v1) && fr.contains_key(v2) && v1 != v2 implies #[trigger] fr[v1] != #[trigger] fr[v2] by {
                    assert(fr0[v1] != fr0[v2]);
                }
                assert forall|i: int, v: usize|
                    0 <= i < s1.len() && #[trigger] s1[i].has_vpn(v as int) && !(s1[i].map_type is Framed)
                        implies !#[trigger] fr.contains_key(v) by {
                    let oi = if i < i0 { i } else { i + 1 };
                    assert(s1[i] == areas0[oi]);
                }
                assert forall|v: usize| #[trigger] fr.contains_key(v) implies allocator.is_allocated(fr[v] as int) by {
                    assert(fr0.contains_key(v));
                    let q = fr[v] as int;
                    assert(a0.is_allocated(q));
                    if framed && !allocator.is_allocated(q) {
                        let w = choose|w: usize| area.has_vpn(w as int) && fr0.contains_key(w) && fr0[w] == q;
                        assert(fr0[w] == fr0[v]);
                        assert(vs.contains(w));
                    }
                }
                assert forall|idx2: int| #[trigger] first_with_start(old(self).areas(), start_vpn, idx2) implies idx2 == i0 by {
                    if idx2 < i0 {
                        assert(areas0[idx2].vpn_range.start != start_vpn);
                    } else if idx2 > i0 {
                        assert(areas0[i0].vpn_range.start != start_vpn);
                    }
                }
                if !framed {
                    assert(mp =~= mp0.remove_keys(vs));
                }
            }
        }
    }

    /// Forget every area; the mappings and frames stay in the page table
    pub fn recycle_data_pages(&mut self)
        requires
            old(self).wf(),
        ensures
            final(self).wf(),
            final(self).areas() == Seq::<MapArea>::empty(),
            final(self).pt() == old(self).pt(),
    {
        self.areas.clear();
        proof {
            let fr = self.frames();
            let mp = self.mappings();
            assert(fr == old(self).frames() && mp == old(self).mappings());
            assert forall|v: usize| #[trigger] fr.contains_key(v) implies mp.contains_key(v) && mp[v].ppn.0 == fr[v] by {
                assert(old(self).frames().contains_key(v));
            }
            assert forall|v1: usize, v2: usize|
                fr.contains_key(v1) && fr.contains_key(v2) && v1 != v2 implies #[trigger] fr[v1] != #[trigger] fr[v2] by {
                assert(old(self).frames()[v1] != old(self).frames()[v2]);
            }
        }
    }

    /// Copy, page by page of `area`, the frames of this space over the
    /// frames of `dst`
    fn copy_frames(&self, dst: &MemorySet, area: MapArea, mem: &mut PhysMem)
        requires
            self.wf(),
            dst.wf(),
            old(mem).wf(),
            forall|v: usize| #[trigger] area.has_vpn(v as int) ==> {
                &&& self.frames().contains_key(v)
                &&& dst.frames().contains_key(v)
                &&& old(mem).has(self.frames()[v] as int)
                &&& old(mem).has(dst.frames()[v] as int)
            },
            forall|v: usize, w: usize|
                #![trigger dst.frames()[v], self.frames()[w]]
                area.has_vpn(v as int) && area.has_vpn(w as int) ==> dst.frames()[v] != self.frames()[w],
        ensures
            final(mem).wf(),
            final(mem).npages() == old(mem).npages(),
            forall|v: usize| #[trigger] area.has_vpn(v as int)
                ==> final(mem).page(dst.frames()[v] as int) == old(mem).page(self.frames()[v] as int),
            forall|r: int| final(mem).has(r) && #[trigger] final(mem).page(r) != old(mem).page(r)
                ==> exists|v: usize| #[trigger] area.has_vpn(v as int) && dst.frames()[v] == r,
    {
        let start = area.vpn_range.start.0;
        let end = area.vpn_range.end.0;
        let mut v: usize = start;
        while v < end
            invariant
                self.wf(),
                dst.wf(),
                old(mem).wf(),
                start == area.vpn_range.start.0,
                end == area.vpn_range.end.0,
                start <= v,
                forall|u: usize| #[trigger] area.has_vpn(u as int) ==> {
                    &&& self.frames().contains_key(u)
                    &&& dst.frames().contains_key(u)
                    &&& old(mem).has(self.frames()[u] as int)
                    &&& old(mem).has(dst.frames()[u] as int)
                },
                forall|u: usize, w: usize|
                    #![trigger dst.frames()[u], self.frames()[w]]
                    area.has_vpn(u as int) && area.has_vpn(w as int) ==> dst.frames()[u] != self.frames()[w],
                mem.wf(),
                mem.npages() == old(mem).npages(),
                forall|u: usize| #[trigger] area.has_vpn(u as int) && u < v
                    ==> mem.page(dst.frames()[u] as int) == old(mem).page(self.frames()[u] as int),
                forall|r: int| mem.has(r) && #[trigger] mem.page(r) != old(mem).page(r)
                    ==> exists|u: usize| #[trigger] area.has_vpn(u as int) && u < v && dst.frames()[u] == r,
            decreases end - v,
        {
            assert(area.has_vpn(v as int));
            let src = self.page_table.translate(VirtPageNum(v)).unwrap().ppn.0;
            let to = dst.page_table.translate(VirtPageNum(v)).unwrap().ppn.0;
            assert(src == self.frames()[v]);
            assert(to == dst.frames()[v]);
            let ghost before = *mem;
            proof {
                if before.page(src as int) != old(mem).page(src as int) {
                    let u = choose|u: usize| #[trigger] area.has_vpn(u as int) && u < v && dst.frames()[u] == src;
                    assert(dst.frames()[u] != self.frames()[v]);
                }
            }
            mem.copy_page(src, to);
            proof {
                assert forall|u: usize| #[trigger] area.has_vpn(u as int) && u < v + 1
                    implies mem.page(dst.frames()[u] as int) == old(mem).page(self.frames()[u] as int) by {
                    if u < v {
                        assert(dst.frames()[u] != dst.frames()[v]);
                    }
                }
                assert forall|r: int| mem.has(r) && #[trigger] mem.page(r) != old(mem).page(r)
                    implies exists|u: usize| #[trigger] area.has_vpn(u as int) && u < v + 1 && dst.frames()[u] == r by {
                    if r == to {
                        assert(area.has_vpn(v as int) && v < v + 1 && dst.frames()[v] == r);
                    } else {
                        assert(before.page(r) != old(mem).page(r));
                        let u = choose|u: usize| #[trigger] area.has_vpn(u as int) && u < v && dst.frames()[u] == r;
                        assert(area.has_vpn(u as int) && u < v + 1 && dst.frames()[u] == r);
                    }
                }
            }
            v = v + 1;
        }
    }

    /// A copy of this space: the same areas, the trampoline mapped to
    /// `strampoline`, and for each framed page a fresh frame holding the
    /// bytes of this space's frame
    pub fn duplicate(&self, strampoline: usize, allocator: &mut StackFrameAllocator, mem: &mut PhysMem) -> (ms: MemorySet)
        requires
            self.wf(),
            self.frames_allocated(*old(allocator)),
            old(allocator).wf(),
            old(mem).wf(),
            old(allocator).end() <= old(mem).npages(),
            old(allocator).available() >= 1 + framed_pages(self.areas()),
            strampoline % PAGE_SIZE == 0,
            forall|i: int, v: int| 0 <= i < self.areas().len() && #[trigger] self.areas()[i].has_vpn(v)
                ==> v != trampoline_vpn() && self.areas()[i].linear_ok(v),
        ensures
            ms.wf(),
            ms.frames_allocated(*final(allocator)),
            ms.areas() == self.areas(),
            forall|i: int| 0 <= i < self.areas().len() ==> #[trigger] self.areas()[i].mapped_in(ms.mappings(), ms.frames()),
            ms.mappings().contains_key(trampoline_vpn() as usize),
            ms.mappings()[trampoline_vpn() as usize]
                == (PageTableEntry { ppn: PhysPageNum(strampoline / PAGE_SIZE), flags: (PTE_R | PTE_X) | PTE_V }),
            forall|v: usize| #[trigger] ms.mappings().contains_key(v) ==> v == trampoline_vpn()
                || exists|i: int| 0 <= i < self.areas().len() && #[trigger] self.areas()[i].has_vpn(v as int),
            forall|v: usize| #[trigger] ms.frames().contains_key(v) ==> {
                &&& self.frames().contains_key(v)
                &&& newly_allocated(*old(allocator), *final(allocator), ms.frames()[v] as int)
                &&& final(mem).page(ms.frames()[v] as int) == old(mem).page(self.frames()[v] as int)
            },
            forall|v: usize, w: usize|
                #![trigger ms.frames()[v], self.frames()[w]]
                ms.frames().contains_key(v) && self.frames().contains_key(w) ==> ms.frames()[v] != self.frames()[w],
            newly_allocated(*old(allocator), *final(allocator), ms.pt().root() as int),
            forall|q: int| #[trigger] old(allocator).is_allocated(q) ==> final(allocator).is_allocated(q),
            final(allocator).wf(),
            final(allocator).end() == old(allocator).end(),
            final(allocator).available() == old(allocator).available() - 1 - framed_pages(self.areas()),
            final(mem).wf(),
            final(mem).npages() == old(mem).npages(),
            forall|r: int| final(mem).has(r) && !newly_allocated(*old(allocator), *final(allocator), r)
                ==> #[trigger] final(mem).page(r) == old(mem).page(r),
    {
        let ghost a0 = *old(allocator);
        let ghost m0 = *old(mem);
        let ghost tramp = trampoline_vpn() as usize;
        let ghost tramp_entry = PageTableEntry { ppn: PhysPageNum(strampoline / PAGE_SIZE), flags: (PTE_R | PTE_X) | PTE_V };
        proof {
            lemma_framed_pages_nonneg(self.areas());
        }
        let mut ms = MemorySet::new_bare(allocator, mem);
        ms.map_trampoline(strampoline);
        let mut i: usize = 0;
        assert(ms.areas() =~= self.areas().take(0));
        assert(self.areas().skip(0) =~= self.areas());
        while i < self.areas.len()
            invariant
                self.wf(),
                self.frames_allocated(a0),
                a0.wf(),
                a0.available() >= 1 + framed_pages(self.areas()),
                a0.end() <= m0.npages(),
                forall|j: int, v: int| 0 <= j < self.areas().len() && #[trigger] self.areas()[j].has_vpn(v)
                    ==> v != trampoline_vpn() && self.areas()[j].linear_ok(v),
                tramp == trampoline_vpn() as usize,
                tramp_entry == (PageTableEntry { ppn: PhysPageNum(strampoline / PAGE_SIZE), flags: (PTE_R | PTE_X) | PTE_V }),
                i <= self.areas().len(),
                ms.wf(),
                ms.frames_allocated(*allocator),
                ms.areas() == self.areas().take(i as int),
                ms.mappings().contains_key(tramp),
                ms.mappings()[tramp] == tramp_entry,
                forall|v: usize| #[trigger] ms.mappings().contains_key(v) ==> v == tramp
                    || exists|j: int| 0 <= j < i && #[trigger] self.areas()[j].has_vpn(v as int),
                forall|v: usize| #[trigger] ms.frames().contains_key(v) ==> {
                    &&& self.frames().contains_key(v)
                    &&& newly_allocated(a0, *allocator, ms.frames()[v] as int)
                    &&& mem.page(ms.frames()[v] as int) == m0.page(self.frames()[v] as int)
                },
                newly_allocated(a0, *allocator, ms.pt().root() as int),
                forall|q: int| #[trigger] a0.is_allocated(q) ==> allocator.is_allocated(q),
                allocator.wf(),
                allocator.end() == a0.end(),
                allocator.available() == a0.available() - 1 - (framed_pages(self.areas()) - framed_pages(self.areas().skip(i as int))),
                mem.wf(),
                mem.npages() == m0.npages(),
                forall|r: int| mem.has(r) && !newly_allocated(a0, *allocator, r) ==> #[trigger] mem.page(r) == m0.page(r),
            decreases self.areas().len() - i,
        {
            let area = self.areas[i];
            let ghost ms0 = ms;
            let ghost a1 = *allocator;
            let ghost m1 = *mem;
            proof {
                assert(area == self.areas()[i as int]);
                assert forall|v: usize| area.has_vpn(v as int) implies !#[trigger] ms.mappings().contains_key(v) by {
                    if ms.mappings().contains_key(v) {
                        assert(self.areas()[i as int].has_vpn(v as int));
                        if v != tramp {
                            let j = choose|j: int| 0 <= j < i && #[trigger] self.areas()[j].has_vpn(v as int);
                            assert(self.areas()[j].has_vpn(v as int));
                        }
                    }
                }
                assert forall|v: usize| area.has_vpn(v as int) implies #[trigger] area.linear_ok(v as int) by {
                    assert(self.areas()[i as int].has_vpn(v as int));
                }
                let rest = self.areas().skip(i as int);
                assert(rest[0] == area);
                assert(rest.skip(1) =~= self.areas().skip(i + 1));
                lemma_framed_pages_nonneg(self.areas().skip(i + 1));
                a1.lemma_bounds();
            }
            ms.push(area, None, allocator, mem);
            let ghost a2 = *allocator;
            let ghost m2 = *mem;
            proof {
                a0.lemma_bounds();
                assert forall|v: usize| #[trigger] ms.frames().contains_key(v) && !area.has_vpn(v as int) implies
                    ms0.frames().contains_key(v) && ms.frames()[v] == ms0.frames()[v] by {
                    let vs = area.vpn_set();
                    assert(!vs.contains(v));
                    assert(ms.frames().remove_keys(vs).contains_key(v));
                    assert(ms0.frames().remove_keys(vs).contains_key(v));
                    assert(ms.frames().remove_keys(vs)[v] == ms0.frames().remove_keys(vs)[v]);
                }
            }
            match area.map_type {
                MapType::Framed => {
                    proof {
                        assert forall|v: usize| #[trigger] area.has_vpn(v as int) implies {
                            &&& self.frames().contains_key(v)
                            &&& ms.frames().contains_key(v)
                            &&& m2.has(self.frames()[v] as int)
                            &&& m2.has(ms.frames()[v] as int)
                        } by {
                            assert(self.areas()[i as int].mapped_in(self.mappings(), self.frames()));
                            assert(self.areas()[i as int].has_vpn(v as int));
                            assert(self.mappings().contains_key(v));
                            assert(self.frames().contains_key(v));
                            assert(a0.is_allocated(self.frames()[v] as int));
                            assert(ms.mappings().contains_key(v));
                        }
                        assert forall|v: usize, w: usize|
                            area.has_vpn(v as int) && area.has_vpn(w as int) implies #[trigger] ms.frames()[v] != #[trigger] self.frames()[w] by {
                            assert(self.areas()[i as int].has_vpn(w as int));
                            assert(self.areas()[i as int].mapped_in(self.mappings(), self.frames()));
                            assert(self.mappings().contains_key(w));
                            assert(self.frames().contains_key(w));
                            assert(a0.is_allocated(self.frames()[w] as int));
                        }
                    }
                    self.copy_frames(&ms, area, mem);
                },
                _ => {},
            }
            proof {
                let m3 = *mem;
                let vs = area.vpn_set();
                // pages other than the new frames of the area keep their bytes
                assert forall|r: int| m3.has(r) && !newly_allocated(a1, a2, r) implies #[trigger] m3.page(r) == m2.page(r) by {
                    if area.map_type is Framed && m3.page(r) != m2.page(r) {
                        let u = choose|u: usize| #[trigger] area.has_vpn(u as int) && ms.frames()[u] == r;
                    }
                }
                assert forall|r: int| mem.has(r) && !newly_allocated(a0, *allocator, r) implies #[trigger] mem.page(r) == m0.page(r) by {
                    assert(!newly_allocated(a1, a2, r));
                    assert(m3.page(r) == m2.page(r));
                    assert(!newly_allocated(a0, a1, r));
                }
                assert forall|v: usize| #[trigger] ms.mappings().contains_key(v) implies v == tramp
                    || exists|j: int| 0 <= j < i + 1 && #[trigger] self.areas()[j].has_vpn(v as int) by {
                    if area.has_vpn(v as int) {
                        assert(self.areas()[i as int].has_vpn(v as int));
                    } else {
                        assert(!vs.contains(v));
                        assert(ms.mappings().remove_keys(vs).contains_key(v));
                        assert(ms0.mappings().contains_key(v));
                        if v != tramp {
                            let j = choose|j: int| 0 <= j < i && #[trigger] self.areas()[j].has_vpn(v as int);
                            assert(self.areas()[j].has_vpn(v as int));
                        }
                    }
                }
                assert(!area.has_vpn(tramp as int)) by {
                    if area.has_vpn(tramp as int) {
                        assert(self.areas()[i as int].has_vpn(tramp as int));
                    }
                }
                assert(!vs.contains(tramp));
                assert(ms.mappings().remove_keys(vs).contains_key(tramp));
                assert(ms.mappings().remove_keys(vs)[tramp] == ms0.mappings().remove_keys(vs)[tramp]);
                assert forall|v: usize| #[trigger] ms.frames().contains_key(v) implies {
                    &&& self.frames().contains_key(v)
                    &&& newly_allocated(a0, *allocator, ms.frames()[v] as int)
                    &&& mem.page(ms.frames()[v] as int) == m0.page(self.frames()[v] as int)
                } by {
                    if area.has_vpn(v as int) {
                        if area.map_type is Framed {
                            assert(self.areas()[i as int].has_vpn(v as int));
                            assert(self.areas()[i as int].mapped_in(self.mappings(), self.frames()));
                            assert(self.frames().contains_key(v));
                            assert(a0.is_allocated(self.frames()[v] as int));
                            assert(!newly_allocated(a0, *allocator, self.frames()[v] as int));
                            assert(m2.page(self.frames()[v] as int) == m0.page(self.frames()[v] as int));
                        } else {
                            assert(ms0.frames().contains_key(v));
                            assert(ms0.mappings().contains_key(v));
                            assert(self.areas()[i as int].has_vpn(v as int));
                            let j = choose|j: int| 0 <= j < i && #[trigger] self.areas()[j].has_vpn(v as int);
                            assert(self.areas()[j].has_vpn(v as int));
                        }
                    } else {
                        assert(ms0.frames().contains_key(v));
                        let f = ms0.frames()[v] as int;
                        assert(a1.is_allocated(f));
                        assert(!newly_allocated(a1, a2, f));
                        assert(mem.has(f));
                        assert(mem.page(f) == m2.page(f));
                        assert(m2.page(f) == m1.page(f));
                    }
                }
                assert(ms.areas() =~= self.areas().take(i + 1));
                let rest = self.areas().skip(i as int);
                assert(rest.skip(1) =~= self.areas().skip(i + 1));
            }
            i = i + 1;
        }
        proof {
            assert(self.areas().take(i as int) =~= self.areas());
            assert(self.areas().skip(i as int) =~= Seq::<MapArea>::empty());
            assert forall|j: int| 0 <= j < self.areas().len() implies #[trigger] self.areas()[j].mapped_in(ms.mappings(), ms.frames()) by {
                assert(ms.areas()[j] == self.areas()[j]);
            }
        }
        ms
    }

    /// Map the trampoline page to the physical page at `strampoline`,
    /// readable and executable; it belongs to no area
    fn map_trampoline(&mut self, strampoline: usize)
        requires
            old(self).wf(),
            !old(self).mappings().contains_key(trampoline_vpn() as usize),
            strampoline % PAGE_SIZE == 0,
        ensures
            final(self).wf(),
            final(self).areas() == old(self).areas(),
            final(self).frames() == old(self).frames(),
            final(self).pt().root() == old(self).pt().root(),
            final(self).mappings() == old(self).mappings().insert(
                trampoline_vpn() as usize,
                PageTableEntry { ppn: PhysPageNum(strampoline / PAGE_SIZE), flags: (PTE_R | PTE_X) | PTE_V },
            ),
    {
        let vpn = VirtAddr::from_usize(TRAMPOLINE).as_vpn_by_floor();
        let ppn = PhysAddr(strampoline).as_ppn_by_floor();
        self.page_table.map(vpn, ppn, PTE_R | PTE_X);
        proof {
            let mp0 = old(self).mappings();
            let mp = self.mappings();
            let fr = self.frames();
            let areas = self.areas();
            assert(areas == old(self).areas());
            assert(fr == old(self).frames());
            assert forall|i: int| 0 <= i < areas.len() implies #[trigger] areas[i].mapped_in(mp, fr) by {
                assert(old(self).areas()[i].mapped_in(mp0, fr));
                assert forall|v: usize| #![trigger mp.contains_key(v)] #![trigger mp[v]] areas[i].has_vpn(v as int) implies {
                    &&& mp.contains_key(v)
                    &&& mp[v] == areas[i].entry_for(v, fr)
                    &&& (areas[i].map_type is Framed ==> fr.contains_key(v))
                } by {
                    assert(mp0.contains_key(v));
                }
            }
            assert forall|v: usize| #[trigger] fr.contains_key(v) implies mp.contains_key(v) && mp[v].ppn.0 == fr[v] by {
                assert(mp0.contains_key(v));
            }
        }
    }


    /// The kernel's address space: the trampoline, then the kernel image
    /// sections, the rest of physical memory and the memory-mapped registers,
    /// each mapped to itself
    pub fn new_kernel(
        layout: &KernelLayout,
        mmio: &[(usize, usize)],
        allocator: &mut StackFrameAllocator,
        mem: &mut PhysMem,
    ) -> (ms: Self)
        requires
            kernel_layout_ok(*layout, mmio@),
            old(allocator).wf(),
            old(mem).wf(),
            old(allocator).end() <= old(mem).npages(),
            old(allocator).available() > 0,
        ensures
            ms.wf(),
            ms.frames() == Map::<usize, usize>::empty(),
            ms.frames_allocated(*final(allocator)),
            ms.areas().len() == kernel_regions(*layout, mmio@).len(),
            forall|k: int| 0 <= k < ms.areas().len() ==> #[trigger] region_matches(ms.areas()[k], kernel_regions(*layout, mmio@)[k]),
            forall|k: int| 0 <= k < ms.areas().len() ==> #[trigger] ms.areas()[k].mapped_in(ms.mappings(), ms.frames()),
            forall|v: usize| #[trigger] ms.mappings().contains_key(v) <==> (v == trampoline_vpn()
                || exists|k: int| 0 <= k < kernel_regions(*layout, mmio@).len()
                    && #[trigger] region_has_vpn(kernel_regions(*layout, mmio@)[k], v as int)),
            ms.mappings()[trampoline_vpn() as usize] == (PageTableEntry {
                ppn: PhysPageNum(layout.strampoline / PAGE_SIZE),
                flags: (PTE_R | PTE_X) | PTE_V,
            }),
            newly_allocated(*old(allocator), *final(allocator), ms.pt().root() as int),
            forall|q: int| q != ms.pt().root() ==> #[trigger] final(allocator).is_allocated(q) == old(allocator).is_allocated(q),
            final(allocator).wf(),
            final(allocator).end() == old(allocator).end(),
            final(mem).wf(),
            final(mem).npages() == old(mem).npages(),
            forall|r: int| r != ms.pt().root() && final(mem).has(r) ==> #[trigger] final(mem).page(r) == old(mem).page(r),
    {
        let mut memory_set = Self::new_bare(allocator, mem);
        memory_set.map_trampoline(layout.strampoline);
        let regions = kernel_region_list(layout, mmio);
        let ghost rs = kernel_regions(*layout, mmio@);
        let ghost a1 = *allocator;
        let ghost m1 = *mem;
        let ghost root = memory_set.pt().root();
        let ghost tramp_entry = PageTableEntry {
            ppn: PhysPageNum(layout.strampoline / PAGE_SIZE),
            flags: (PTE_R | PTE_X) | PTE_V,
        };
        let mut k: usize = 0;
        while k < regions.len()
            invariant
                regions@.len() == rs.len(),
                forall|j: int| 0 <= j < rs.len() ==> #[trigger] region_entry_ok(regions@[j], rs[j]),
                rs == kernel_regions(*layout, mmio@),
                kernel_layout_ok(*layout, mmio@),
                k <= regions@.len(),
                memory_set.wf(),
                memory_set.frames() == Map::<usize, usize>::empty(),
                memory_set.pt().root() == root,
                memory_set.areas().len() == k,
                forall|j: int| 0 <= j < k ==> #[trigger] region_matches(memory_set.areas()[j], rs[j]),
                forall|v: usize| #[trigger] memory_set.mappings().contains_key(v) <==> (v == trampoline_vpn()
                    || exists|j: int| 0 <= j < k && #[trigger] region_has_vpn(rs[j], v as int)),
                memory_set.mappings()[trampoline_vpn() as usize] == tramp_entry,
                *allocator == a1,
                *mem == m1,
            decreases regions@.len() - k,
        {
            let (start, end, perm) = regions[k];
            proof {
                assert(region_entry_ok(regions@[k as int], rs[k as int]));
                assert(region_ok(rs[k as int]));
            }
            let area = MapArea::new(VirtAddr::from_usize(start), VirtAddr::from_usize(end), MapType::Identical, perm);
            let ghost mp0 = memory_set.mappings();
            let ghost s0 = memory_set.areas();
            proof {
                assert forall|v: usize| area.has_vpn(v as int) <==> region_has_vpn(rs[k as int], v as int) by {}
                assert forall|v: usize| area.has_vpn(v as int) implies !#[trigger] memory_set.mappings().contains_key(v) by {
                    assert(region_has_vpn(rs[k as int], v as int));
                    assert(v != trampoline_vpn());
                    if exists|j: int| 0 <= j < k && #[trigger] region_has_vpn(rs[j], v as int) {
                        let j = choose|j: int| 0 <= j < k && #[trigger] region_has_vpn(rs[j], v as int);
                        assert(regions_disjoint(rs[j], rs[k as int]));
                    }
                }
            }
            memory_set.push(area, None, allocator, mem);
            proof {
                let mp = memory_set.mappings();
                let vs = area.vpn_set();
                assert forall|v: usize| !area.has_vpn(v as int) implies
                    mp.contains_key(v) == mp0.contains_key(v) && (mp0.contains_key(v) ==> mp[v] == mp0[v]) by {
                    assert(!vs.contains(v));
                    assert(mp.remove_keys(vs).contains_key(v) == mp0.remove_keys(vs).contains_key(v));
                    if mp0.contains_key(v) {
                        assert(mp.remove_keys(vs)[v] == mp0.remove_keys(vs)[v]);
                    }
                }
                assert(!area.has_vpn(trampoline_vpn()));
                assert(mp0.contains_key(trampoline_vpn() as usize));
                assert forall|v: usize| #[trigger] mp.contains_key(v) <==> (v == trampoline_vpn()
                    || exists|j: int| 0 <= j < k + 1 && #[trigger] region_has_vpn(rs[j], v as int)) by {
                    if area.has_vpn(v as int) {
                        assert(mp.contains_key(v));
                        assert(region_has_vpn(rs[k as int], v as int));
                    } else {
                        if exists|j: int| 0 <= j < k + 1 && #[trigger] region_has_vpn(rs[j], v as int) {
                            let j = choose|j: int| 0 <= j < k + 1 && #[trigger] region_has_vpn(rs[j], v as int);
                            assert(j != k);
                        }
                        assert(mp.contains_key(v) == mp0.contains_key(v));
                    }
                }
                assert forall|j: int| 0 <= j < k + 1 implies #[trigger] region_matches(memory_set.areas()[j], rs[j]) by {
                    if j < k {
                        assert(memory_set.areas()[j] == s0[j]);
                    }
                }
            }
            k = k + 1;
        }
        proof {
            assert forall|v: usize| #[trigger] memory_set.frames().contains_key(v)
                implies allocator.is_allocated(memory_set.frames()[v] as int) by {}
        }
        memory_set
    }

}

/// The `satp` value selecting the kernel's address space
pub fn kernel_token(kernel_space: &MemorySet) -> (t: usize)
    requires
        kernel_space.pt().root() < 0x1000_0000_0000,
    ensures
        usize::BITS == 64 ==> t as int == 0x8000_0000_0000_0000int + kernel_space.pt().root(),
{
    kernel_space.token()
}

/// Removing an area right after pushing it gives back the address space from
/// before: the mappings, frames and areas are those from before the push.
/// This holds when no earlier area starts at the same page as the pushed
/// one, so that the removal finds the pushed area.
pub proof fn lemma_push_then_remove(m0: MemorySet, m1: MemorySet, m2: MemorySet, area: MapArea)
    requires
        m0.wf(),
        area.vpn_range.start.0 < area.vpn_range.end.0,
        forall|j: int| 0 <= j < m0.areas().len() ==> #[trigger] m0.areas()[j].vpn_range.start != area.vpn_range.start,
        forall|v: usize| area.has_vpn(v as int) ==> !#[trigger] m0.mappings().contains_key(v),
        m1.areas() == m0.areas().push(area),
        m1.mappings().remove_keys(area.vpn_set()) == m0.mappings().remove_keys(area.vpn_set()),
        m1.frames().remove_keys(area.vpn_set()) == m0.frames().remove_keys(area.vpn_set()),
        !(area.map_type is Framed) ==> m1.frames() == m0.frames(),
        forall|idx: int| #[trigger] first_with_start(m1.areas(), area.vpn_range.start, idx) ==> {
            &&& m2.areas() == m1.areas().remove(idx)
            &&& m2.mappings() == m1.mappings().remove_keys(m1.areas()[idx].vpn_set())
            &&& m1.areas()[idx].map_type is Framed ==> m2.frames() == m1.frames().remove_keys(m1.areas()[idx].vpn_set())
            &&& !(m1.areas()[idx].map_type is Framed) ==> m2.frames() == m1.frames()
        },
    ensures
        m2.mappings() == m0.mappings(),
        m2.frames() == m0.frames(),
        m2.areas() == m0.areas(),
{
    let n = m0.areas().len() as int;
    let vs = area.vpn_set();
    assert(m1.areas()[n] == area);
    assert forall|j: int| 0 <= j < n implies #[trigger] m1.areas()[j].vpn_range.start != area.vpn_range.start by {
        assert(m1.areas()[j] == m0.areas()[j]);
    }
    assert(first_with_start(m1.areas(), area.vpn_range.start, n));
    assert(m1.areas().remove(n) =~= m0.areas());
    assert forall|v: usize| #[trigger] vs.contains(v) implies !m0.mappings().contains_key(v) && !m0.frames().contains_key(v) by {
        assert(area.has_vpn(v as int));
    }
    assert(m0.mappings().remove_keys(vs) =~= m0.mappings());
    assert(m0.frames().remove_keys(vs) =~= m0.frames());
}


/// The first page of segment `s`.
pub open spec fn seg_first_vpn(s: ElfSegment) -> int {
    ((s.vaddr as usize) as int % 0x80_0000_0000int) / PAGE_SIZE as int
}

/// The page after the last page of segment `s`.
pub open spec fn seg_end_vpn(s: ElfSegment) -> int {
    ((((s.vaddr + s.mem_size) as u64) as usize) as int % 0x80_0000_0000int + PAGE_SIZE - 1) / PAGE_SIZE as int
}

/// The permission bits of the area of segment `s`: accessible from user
/// mode, and readable, writable and executable as the segment says.
pub open spec fn seg_perm(s: ElfSegment) -> u8 {
    let a = if s.readable { 16u8 | 2u8 } else { 16u8 };
    let b = if s.writable { a | 4u8 } else { a };
    if s.executable { b | 8u8 } else { b }
}

/// The permission bits made of three independent choices: user mode (16)
/// always, read (2), write (4) and execute (8) exactly as chosen.
proof fn lemma_perm_choices(r: bool, w: bool, x: bool, p: u8)
    by (bit_vector)
    requires
        p == (if x { (if w { (if r { 16u8 | 2u8 } else { 16u8 }) | 4u8 } else { (if r { 16u8 | 2u8 } else { 16u8 }) }) | 8u8 }
            else { (if w { (if r { 16u8 | 2u8 } else { 16u8 }) | 4u8 } else { (if r { 16u8 | 2u8 } else { 16u8 }) }) }),
    ensures
        (p & 2u8 != 0) == r,
        (p & 4u8 != 0) == w,
        (p & 8u8 != 0) == x,
        p & 16u8 != 0,
        p & !30u8 == 0,
{
}

/// The area of a segment is accessible from user mode, readable exactly when
/// the segment is readable (bit 2), writable exactly when it is writable
/// (bit 4) and executable exactly when it is executable (bit 8), each
/// whatever the others are, and has no other permission bit.
pub proof fn lemma_seg_perm_bits(s: ElfSegment)
    ensures
        (seg_perm(s) & 2u8 != 0) == s.readable,
        (seg_perm(s) & 4u8 != 0) == s.writable,
        (seg_perm(s) & 8u8 != 0) == s.executable,
        seg_perm(s) & 16u8 != 0,
        seg_perm(s) & !30u8 == 0,
{
    lemma_perm_choices(s.readable, s.writable, s.executable, seg_perm(s));
}

/// Byte `i` of the pages of segment `s` of file `data`: its bytes in the
/// file, then zeros.
pub open spec fn seg_byte(data: Seq<u8>, s: ElfSegment, i: int) -> u8 {
    if i < s.file_size { data[s.offset + i] } else { 0u8 }
}

/// Whether area `a` is the framed area of segment `s`.
pub open spec fn seg_area_ok(a: MapArea, s: ElfSegment) -> bool {
    &&& a.vpn_range.start.0 == seg_first_vpn(s)
    &&& a.vpn_range.end.0 == seg_end_vpn(s)
    &&& a.map_type == MapType::Framed
    &&& a.map_perm.value() == seg_perm(s)
}

/// Whether segment `s` of a file of `len` bytes can be loaded: its end
/// address and the end of its bytes in the file can be computed, its bytes
/// lie in the file and fit its pages, its pages are not reversed, and the
/// trampoline is not among them.
pub open spec fn seg_ok(s: ElfSegment, len: int) -> bool {
    &&& s.vaddr + s.mem_size <= u64::MAX
    &&& s.offset + s.file_size <= len
    &&& seg_first_vpn(s) <= seg_end_vpn(s)
    &&& s.file_size <= (seg_end_vpn(s) - seg_first_vpn(s)) * PAGE_SIZE
    &&& !(seg_first_vpn(s) <= trampoline_vpn() < seg_end_vpn(s))
}

/// Whether the segments of a file of `len` bytes can be loaded: each can,
/// and no two share a page.
pub open spec fn segs_ok(segs: Seq<ElfSegment>, len: int) -> bool {
    &&& forall|i: int| 0 <= i < segs.len() ==> #[trigger] seg_ok(segs[i], len)
    &&& forall|i: int, j: int|
        #![trigger segs[i], segs[j]]
        0 <= i < j < segs.len() ==> seg_end_vpn(segs[i]) <= seg_first_vpn(segs[j]) || seg_end_vpn(segs[j])
            <= seg_first_vpn(segs[i])
}

/// Number of pages of the segments.
pub open spec fn segs_pages(segs: Seq<ElfSegment>) -> int
    decreases segs.len(),
{
    if segs.len() == 0 {
        0
    } else {
        (seg_end_vpn(segs[0]) - seg_first_vpn(segs[0])) + segs_pages(segs.skip(1))
    }
}

proof fn lemma_segs_pages_nonneg(segs: Seq<ElfSegment>)
    requires
        forall|i: int| 0 <= i < segs.len() ==> seg_first_vpn(#[trigger] segs[i]) <= seg_end_vpn(segs[i]),
    ensures
        segs_pages(segs) >= 0,
    decreases segs.len(),
{
    if segs.len() > 0 {
        assert forall|i: int| 0 <= i < segs.skip(1).len() implies seg_first_vpn(#[trigger] segs.skip(1)[i])
            <= seg_end_vpn(segs.skip(1)[i]) by {
            assert(segs.skip(1)[i] == segs[i + 1]);
        }
        lemma_segs_pages_nonneg(segs.skip(1));
    }
}

/// Whether `ms` holds the segments `segs` of file `data`, the trampoline
/// mapped to `strampoline`: one framed area per segment, in order, nothing
/// else mapped, and each page of an area holding the segment's bytes.
pub open spec fn loaded(ms: MemorySet, mem: PhysMem, segs: Seq<ElfSegment>, data: Seq<u8>, strampoline: usize) -> bool {
    &&& ms.wf()
    &&& ms.areas().len() == segs.len()
    &&& forall|i: int| 0 <= i < segs.len() ==> #[trigger] seg_area_ok(ms.areas()[i], segs[i])
    &&& ms.mappings().contains_key(trampoline_vpn() as usize)
    &&& ms.mappings()[trampoline_vpn() as usize]
        == (PageTableEntry { ppn: PhysPageNum(strampoline / PAGE_SIZE), flags: (PTE_R | PTE_X) | PTE_V })
    &&& forall|v: usize| #[trigger] ms.mappings().contains_key(v) ==> v == trampoline_vpn()
        || exists|i: int| 0 <= i < segs.len() && #[trigger] ms.areas()[i].has_vpn(v as int)
    &&& forall|i: int, k: int, j: int|
        0 <= i < segs.len() && 0 <= k < seg_end_vpn(segs[i]) - seg_first_vpn(segs[i]) && 0 <= j < PAGE_SIZE
            ==> #[trigger] mem.page(ms.frames()[(seg_first_vpn(segs[i]) + k) as usize] as int)[j]
            == seg_byte(data, segs[i], k * PAGE_SIZE + j)
}

/// Whether segment `s` of a file of `len` bytes can be loaded (see
/// [`seg_ok`])
pub fn seg_fits(s: &ElfSegment, len: usize) -> (b: bool)
    ensures
        b == seg_ok(*s, len as int),
{
    let end = match s.vaddr.checked_add(s.mem_size) {
        Some(e) => e,
        None => return false,
    };
    let file_end = match s.offset.checked_add(s.file_size) {
        Some(e) => e,
        None => return false,
    };
    if file_end > len as u64 {
        return false;
    }
    let first = VirtAddr::from_usize(s.vaddr as usize).as_vpn_by_floor().0;
    let last = VirtAddr::from_usize(end as usize).as_vpn_by_ceil().0;
    if first > last {
        return false;
    }
    let x = VirtAddr::from_usize(end as usize).0;
    assert(last <= 0x800_0000) by (nonlinear_arith)
        requires
            last == (x + 4095) / 4096,
            x < 0x80_0000_0000,
    ;
    let pages = (last - first) as u64;
    assert(pages * 4096 <= 0x80_0000_0000) by (nonlinear_arith)
        requires
            pages <= 0x800_0000,
    ;
    if s.file_size > pages * (PAGE_SIZE as u64) {
        return false;
    }
    let tramp = VirtAddr::from_usize(TRAMPOLINE).as_vpn_by_floor().0;
    !(first <= tramp && tramp < last)
}

/// Whether the segments of a file of `len` bytes can be loaded with at most
/// `available` frames: see [`segs_ok`]; one frame goes to the page table root
/// and one to each page of the segments
pub fn segments_fit(segs: &Vec<ElfSegment>, len: usize, available: u128) -> (b: bool)
    ensures
        b == (segs_ok(segs@, len as int) && 1 + segs_pages(segs@) <= available),
{
    let n = segs.len();
    let mut total: u128 = 0;
    let mut i: usize = n;
    assert(segs@.skip(n as int) =~= Seq::<ElfSegment>::empty());
    while i > 0
        invariant
            n == segs@.len(),
            i <= n,
            forall|k: int| i <= k < n ==> #[trigger] seg_ok(segs@[k], len as int),
            forall|a: int, c: int|
                #![trigger segs@[a], segs@[c]]
                i <= a < c < n ==> seg_end_vpn(segs@[a]) <= seg_first_vpn(segs@[c]) || seg_end_vpn(segs@[c])
                    <= seg_first_vpn(segs@[a]),
            total == segs_pages(segs@.skip(i as int)),
            total <= (n - i) * 0x800_0000,
        decreases i,
    {
        i = i - 1;
        if !seg_fits(&segs[i], len) {
            return false;
        }
        let first = VirtAddr::from_usize(segs[i].vaddr as usize).as_vpn_by_floor().0;
        let end = VirtAddr::from_usize((segs[i].vaddr + segs[i].mem_size) as usize).as_vpn_by_ceil().0;
        let mut j: usize = i + 1;
        while j < n
            invariant
                n == segs@.len(),
                i < n,
                i + 1 <= j <= n,
                first == seg_first_vpn(segs@[i as int]),
                end == seg_end_vpn(segs@[i as int]),
                forall|k: int| i <= k < n ==> #[trigger] seg_ok(segs@[k], len as int),
                forall|c: int| i < c < j ==> seg_end_vpn(segs@[i as int]) <= seg_first_vpn(#[trigger] segs@[c])
                    || seg_end_vpn(segs@[c]) <= seg_first_vpn(segs@[i as int]),
            decreases n - j,
        {
            assert(seg_ok(segs@[j as int], len as int));
            let f2 = VirtAddr::from_usize(segs[j].vaddr as usize).as_vpn_by_floor().0;
            let e2 = VirtAddr::from_usize((segs[j].vaddr + segs[j].mem_size) as usize).as_vpn_by_ceil().0;
            if !(end <= f2 || e2 <= first) {
                return false;
            }
            j = j + 1;
        }
        proof {
            let t = segs@.skip(i as int);
            assert(t[0] == segs@[i as int]);
            assert(t.skip(1) =~= segs@.skip(i + 1));
            assert forall|a: int, c: int|
                #![trigger segs@[a], segs@[c]]
                i <= a < c < n implies seg_end_vpn(segs@[a]) <= seg_first_vpn(segs@[c]) || seg_end_vpn(segs@[c])
                    <= seg_first_vpn(segs@[a]) by {
                if a == i {
                    assert(seg_end_vpn(segs@[i as int]) <= seg_first_vpn(segs@[c]) || seg_end_vpn(segs@[c])
                        <= seg_first_vpn(segs@[i as int]));
                }
            }
            assert(seg_ok(segs@[i as int], len as int));
            assert(seg_end_vpn(segs@[i as int]) - seg_first_vpn(segs@[i as int]) <= 0x800_0000);
        }
        total = total + (end - first) as u128;
    }
    assert(segs@.skip(0) =~= segs@);
    total + 1 <= available
}

impl MemorySet {
    /// The address space of the loadable segments `segs` of file `data`, with
    /// the trampoline mapped to `strampoline`: one framed area per segment,
    /// user-accessible and readable, writable and executable as the segment
    /// says, holding the segment's bytes and then zeros
    pub fn from_segments(
        segs: &Vec<ElfSegment>,
        data: &[u8],
        strampoline: usize,
        allocator: &mut StackFrameAllocator,
        mem: &mut PhysMem,
    ) -> (ms: MemorySet)
        requires
            segs_ok(segs@, data@.len() as int),
            strampoline % PAGE_SIZE == 0,
            old(allocator).wf(),
            old(mem).wf(),
            old(allocator).end() <= old(mem).npages(),
            old(allocator).available() >= 1 + segs_pages(segs@),
        ensures
            loaded(ms, *final(mem), segs@, data@, strampoline),
            ms.frames_allocated(*final(allocator)),
            forall|v: usize| #[trigger] ms.frames().contains_key(v)
                ==> newly_allocated(*old(allocator), *final(allocator), ms.frames()[v] as int),
            newly_allocated(*old(allocator), *final(allocator), ms.pt().root() as int),
            forall|q: int| #[trigger] old(allocator).is_allocated(q) ==> final(allocator).is_allocated(q),
            final(allocator).wf(),
            final(allocator).end() == old(allocator).end(),
            final(allocator).available() == old(allocator).available() - 1 - segs_pages(segs@),
            final(mem).wf(),
            final(mem).npages() == old(mem).npages(),
            forall|r: int| final(mem).has(r) && !newly_allocated(*old(allocator), *final(allocator), r)
                ==> #[trigger] final(mem).page(r) == old(mem).page(r),
    {
        let ghost a0 = *old(allocator);
        let ghost m0 = *old(mem);
        let ghost tramp = trampoline_vpn() as usize;
        let ghost tramp_entry = PageTableEntry { ppn: PhysPageNum(strampoline / PAGE_SIZE), flags: (PTE_R | PTE_X) | PTE_V };
        proof {
            assert forall|k: int| 0 <= k < segs@.len() implies seg_first_vpn(#[trigger] segs@[k]) <= seg_end_vpn(segs@[k]) by {
                assert(seg_ok(segs@[k], data@.len() as int));
            }
            lemma_segs_pages_nonneg(segs@);
        }
        let mut ms = MemorySet::new_bare(allocator, mem);
        ms.map_trampoline(strampoline);
        let n = segs.len();
        let mut i: usize = 0;
        assert(segs@.skip(0) =~= segs@);
        while i < n
            invariant
                n == segs@.len(),
                segs_ok(segs@, data@.len() as int),
                a0.wf(),
                a0.available() >= 1 + segs_pages(segs@),
                a0.end() <= m0.npages(),
                tramp == trampoline_vpn() as usize,
                tramp_entry == (PageTableEntry { ppn: PhysPageNum(strampoline / PAGE_SIZE), flags: (PTE_R | PTE_X) | PTE_V }),
                i <= n,
                ms.wf(),
                ms.frames_allocated(*allocator),
                ms.areas().len() == i,
                forall|k: int| 0 <= k < i ==> #[trigger] seg_area_ok(ms.areas()[k], segs@[k]),
                ms.mappings().contains_key(tramp),
                ms.mappings()[tramp] == tramp_entry,
                forall|v: usize| #[trigger] ms.mappings().contains_key(v) ==> v == tramp
                    || exists|k: int| 0 <= k < i && #[trigger] ms.areas()[k].has_vpn(v as int),
                forall|k: int, p: int, j: int|
                    0 <= k < i && 0 <= p < seg_end_vpn(segs@[k]) - seg_first_vpn(segs@[k]) && 0 <= j < PAGE_SIZE
                        ==> #[trigger] mem.page(ms.frames()[(seg_first_vpn(segs@[k]) + p) as usize] as int)[j]
                        == seg_byte(data@, segs@[k], p * PAGE_SIZE + j),
                forall|v: usize| #[trigger] ms.frames().contains_key(v) ==> newly_allocated(a0, *allocator, ms.frames()[v] as int),
                newly_allocated(a0, *allocator, ms.pt().root() as int),
                forall|q: int| #[trigger] a0.is_allocated(q) ==> allocator.is_allocated(q),
                allocator.wf(),
                allocator.end() == a0.end(),
                allocator.available() == a0.available() - 1 - (segs_pages(segs@) - segs_pages(segs@.skip(i as int))),
                mem.wf(),
                mem.npages() == m0.npages(),
                forall|r: int| mem.has(r) && !newly_allocated(a0, *allocator, r) ==> #[trigger] mem.page(r) == m0.page(r),
            decreases n - i,
        {
            let s = segs[i];
            assert(s == segs@[i as int]);
            assert(seg_ok(s, data@.len() as int));
            let start_va = VirtAddr::from_usize(s.vaddr as usize);
            let end_va = VirtAddr::from_usize((s.vaddr + s.mem_size) as usize);
            let mut perm = MapPermission::u();
            if s.readable {
                perm = perm.union(MapPermission::r());
            }
            if s.writable {
                perm = perm.union(MapPermission::w());
            }
            if s.executable {
                perm = perm.union(MapPermission::x());
            }
            let area = MapArea::new(start_va, end_va, MapType::Framed, perm);
            let dlen = data.len();
            assert(s.offset + s.file_size <= dlen);
            let bytes = slice_subrange(data, s.offset as usize, (s.offset + s.file_size) as usize);
            let ghost ms0 = ms;
            let ghost a1 = *allocator;
            let ghost m1 = *mem;
            proof {
                assert(s == segs@[i as int]);
                assert(seg_ok(s, data@.len() as int));
                assert(seg_area_ok(area, s));
                assert forall|v: usize| area.has_vpn(v as int) implies !#[trigger] ms.mappings().contains_key(v) by {
                    if ms.mappings().contains_key(v) {
                        if v != tramp {
                            let k = choose|k: int| 0 <= k < i && #[trigger] ms.areas()[k].has_vpn(v as int);
                            assert(seg_area_ok(ms.areas()[k], segs@[k]));
                            assert(segs@[k] == segs@[k] && segs@[i as int] == s);
                        }
                    }
                }
                let rest = segs@.skip(i as int);
                assert(rest[0] == s);
                assert(rest.skip(1) =~= segs@.skip(i + 1));
                assert forall|k: int| 0 <= k < segs@.skip(i + 1).len() implies seg_first_vpn(#[trigger] segs@.skip(i + 1)[k])
                    <= seg_end_vpn(segs@.skip(i + 1)[k]) by {
                    assert(segs@.skip(i + 1)[k] == segs@[i + 1 + k]);
                    assert(seg_ok(segs@[i + 1 + k], data@.len() as int));
                }
                lemma_segs_pages_nonneg(segs@.skip(i + 1));
                assert(bytes@.len() == s.file_size);
            }
            ms.push(area, Some(bytes), allocator, mem);
            proof {
                let a2 = *allocator;
                let vs = area.vpn_set();
                assert(ms.areas()[i as int] == area);
                assert forall|k: int| 0 <= k < i + 1 implies #[trigger] seg_area_ok(ms.areas()[k], segs@[k]) by {
                    if k < i {
                        assert(ms.areas()[k] == ms0.areas()[k]);
                    }
                }
                assert(!area.has_vpn(tramp as int));
                assert(!vs.contains(tramp));
                assert(ms.mappings().remove_keys(vs).contains_key(tramp));
                assert(ms.mappings().remove_keys(vs)[tramp] == ms0.mappings().remove_keys(vs)[tramp]);
                assert forall|v: usize| #[trigger] ms.mappings().contains_key(v) implies v == tramp
                    || exists|k: int| 0 <= k < i + 1 && #[trigger] ms.areas()[k].has_vpn(v as int) by {
                    if area.has_vpn(v as int) {
                        assert(ms.areas()[i as int].has_vpn(v as int));
                    } else {
                        assert(!vs.contains(v));
                        assert(ms.mappings().remove_keys(vs).contains_key(v));
                        assert(ms0.mappings().contains_key(v));
                        if v != tramp {
                            let k = choose|k: int| 0 <= k < i && #[trigger] ms0.areas()[k].has_vpn(v as int);
                            assert(ms.areas()[k] == ms0.areas()[k]);
                        }
                    }
                }
                assert forall|v: usize| #[trigger] ms.frames().contains_key(v) implies newly_allocated(a0, *allocator, ms.frames()[v] as int) by {
                    if !area.has_vpn(v as int) {
                        assert(!vs.contains(v));
                        assert(ms.frames().remove_keys(vs).contains_key(v));
                        assert(ms.frames().remove_keys(vs)[v] == ms0.frames().remove_keys(vs)[v]);
                    }
                }
                // the bytes of earlier segments stay where they were
                assert forall|k: int, p: int, j: int|
                    0 <= k < i + 1 && 0 <= p < seg_end_vpn(segs@[k]) - seg_first_vpn(segs@[k]) && 0 <= j < PAGE_SIZE
                        implies #[trigger] mem.page(ms.frames()[(seg_first_vpn(segs@[k]) + p) as usize] as int)[j]
                        == seg_byte(data@, segs@[k], p * PAGE_SIZE + j) by {
                    let v = (seg_first_vpn(segs@[k]) + p) as usize;
                    if k < i {
                        assert(seg_area_ok(ms0.areas()[k], segs@[k]));
                        assert(ms0.areas()[k].has_vpn(v as int));
                        assert(ms0.areas()[k].mapped_in(ms0.mappings(), ms0.frames()));
                        assert(ms0.mappings().contains_key(v));
                        assert(ms0.frames().contains_key(v));
                        assert(!area.has_vpn(v as int)) by {
                            assert(segs@[i as int] == s);
                        }
                        assert(!vs.contains(v));
                        assert(ms.frames().remove_keys(vs).contains_key(v));
                        assert(ms.frames().remove_keys(vs)[v] == ms0.frames().remove_keys(vs)[v]);
                        let f = ms0.frames()[v] as int;
                        assert(a1.is_allocated(f));
                        assert(!newly_allocated(a1, a2, f));
                        a1.lemma_bounds();
                        assert(mem.has(f));
                    } else {
                        assert(k == i);
                        assert(area.vpn_range.start.0 + p == v);
                        assert(mem.page(ms.frames()[(area.vpn_range.start.0 + p) as usize] as int)[j]
                            == initial_byte(Some(bytes), p * PAGE_SIZE + j));
                    }
                }
                assert forall|r: int| mem.has(r) && !newly_allocated(a0, *allocator, r) implies #[trigger] mem.page(r) == m0.page(r) by {
                    assert(!newly_allocated(a1, a2, r));
                    assert(!newly_allocated(a0, a1, r));
                }
            }
            i = i + 1;
        }
        assert(segs@.skip(n as int) =~= Seq::<ElfSegment>::empty());
        ms
    }

    /// Read the ELF file `data` and build the address space of a process
    /// running it: the trampoline and its loadable segments (see
    /// [`MemorySet::from_elf_image`]), then the main thread's user stack,
    /// based a guard page above the last segment, and its trap context page
    /// (see [`crate::task::tcb::TaskUserRes::alloc_user_res`]). Returns the
    /// space, the user stack base and the entry point. `None` when the image
    /// cannot be built, the stack or the trap context page does not fit
    /// beside it (see [`image_fits`]), or `allocator` lacks frames for them.
    #[verifier::rlimit(60)]
    #[verifier::spinoff_prover]
    pub fn from_elf(
        data: &[u8],
        strampoline: usize,
        allocator: &mut StackFrameAllocator,
        mem: &mut PhysMem,
    ) -> (r: Option<(MemorySet, usize, usize)>)
        requires
            strampoline % PAGE_SIZE == 0,
            old(allocator).wf(),
            old(mem).wf(),
            old(allocator).end() <= old(mem).npages(),
        ensures
            ({
                let segs = load_segments(data@, elf_ph_count(data@) as int);
                let s = segs->0;
                let base = image_ustack_base(s);
                let res = TaskUserRes { tid: 0, ustack_base: base };
                let ok = elf_parses(data@) && segs is Some && segs_ok(s, data@.len() as int)
                    && 1 + segs_pages(s) <= old(allocator).available() && image_fits(s, base)
                    && old(allocator).available() - 1 - segs_pages(s)
                    >= ustack_end_vpn(res) - ustack_bottom(res) / PAGE_SIZE as int + 1;
                &&& r is Some ==> ok
                &&& !ok ==> r is None
                &&& r matches Some((ms, ustack_base, entry)) ==> {
                    let n = s.len() as int;
                    let st = ms.areas()[n];
                    let tc = ms.areas()[n + 1];
                    &&& ustack_base == base
                    &&& entry == elf_entry(data@) as usize
                    &&& ms.wf()
                    &&& ms.frames_allocated(*final(allocator))
                    &&& ms.areas().len() == n + 2
                    &&& forall|i: int| 0 <= i < n ==> #[trigger] seg_area_ok(ms.areas()[i], s[i])
                    &&& st.vpn_range.start.0 == ustack_bottom(res) / PAGE_SIZE as int
                    &&& st.vpn_range.end.0 == ustack_end_vpn(res)
                    &&& st.map_type == MapType::Framed
                    &&& st.map_perm.value() == 22
                    &&& tc.vpn_range.start.0 == trap_cx_vpn(0)
                    &&& tc.vpn_range.end.0 == trap_cx_vpn(0) + 1
                    &&& tc.map_type == MapType::Framed
                    &&& tc.map_perm.value() == 6
                    &&& ms.mappings().contains_key(trap_cx_vpn(0) as usize)
                    &&& ms.mappings().contains_key(trampoline_vpn() as usize)
                    &&& ms.mappings()[trampoline_vpn() as usize]
                        == (PageTableEntry { ppn: PhysPageNum(strampoline / PAGE_SIZE), flags: (PTE_R | PTE_X) | PTE_V })
                    &&& forall|v: usize| #[trigger] ms.mappings().contains_key(v) ==> v == trampoline_vpn()
                        || exists|i: int| 0 <= i < n + 2 && #[trigger] ms.areas()[i].has_vpn(v as int)
                    &&& forall|i: int, k: int, j: int|
                        0 <= i < n && 0 <= k < seg_end_vpn(s[i]) - seg_first_vpn(s[i]) && 0 <= j < PAGE_SIZE
                            ==> #[trigger] final(mem).page(ms.frames()[(seg_first_vpn(s[i]) + k) as usize] as int)[j]
                            == seg_byte(data@, s[i], k * PAGE_SIZE + j)
                    &&& forall|v: usize| #[trigger] ms.frames().contains_key(v)
                        ==> newly_allocated(*old(allocator), *final(allocator), ms.frames()[v] as int)
                    &&& final(allocator).wf()
                    &&& final(allocator).end() == old(allocator).end()
                    &&& final(mem).wf()
                    &&& final(mem).npages() == old(mem).npages()
                    &&& forall|rr: int| final(mem).has(rr) && !newly_allocated(*old(allocator), *final(allocator), rr)
                        ==> #[trigger] final(mem).page(rr) == old(mem).page(rr)
                }
            }),
    {
        let ghost a0 = *old(allocator);
        let ghost m0 = *old(mem);
        let (mut ms, ustack_base, entry) = match MemorySet::from_elf_image(data, strampoline, allocator, mem) {
            Some(image) => image,
            None => return None,
        };
        let ghost segs = load_segments(data@, elf_ph_count(data@) as int)->0;
        let ghost ms0 = ms;
        let ghost a1 = *allocator;
        let ghost m1 = *mem;
        let res = TaskUserRes { tid: 0, ustack_base };
        proof {
            lemma_image_fits(ms, *mem, segs, data@, strampoline, ustack_base);
        }
        if !user_res_fits(&res, &ms) {
            return None;
        }
        assert(loaded(ms0, m1, segs, data@, strampoline));
        let first = ustack_base / PAGE_SIZE;
        let end = ((ustack_base as u64 + USER_STACK_SIZE as u64 + PAGE_SIZE as u64 - 1) / PAGE_SIZE as u64) as usize;
        assert(end == ustack_end_vpn(res));
        if allocator.available_frames() < (end - first + 1) as u128 {
            return None;
        }
        res.alloc_user_res(&mut ms, allocator, mem);
        proof {
            let n = segs.len() as int;
            let st = ms.areas()[n];
            let tc = ms.areas()[n + 1];
            ms0.lemma_areas_mapped();
            assert(tc.has_vpn(trap_cx_vpn(0)));
            assert(forall|i: int| 0 <= i < n ==> #[trigger] ms.areas()[i] == ms0.areas()[i]);
            assert forall|v: usize| #[trigger] ms.mappings().contains_key(v) implies v == trampoline_vpn()
                || exists|i: int| 0 <= i < n + 2 && #[trigger] ms.areas()[i].has_vpn(v as int) by {
                if st.has_vpn(v as int) {
                    assert(ms.areas()[n].has_vpn(v as int));
                } else if tc.has_vpn(v as int) {
                    assert(ms.areas()[n + 1].has_vpn(v as int));
                } else if v != trampoline_vpn() {
                    assert(ms0.mappings().contains_key(v));
                    let i = choose|i: int| 0 <= i < n && #[trigger] ms0.areas()[i].has_vpn(v as int);
                    assert(ms.areas()[i].has_vpn(v as int));
                }
            }
            assert(!st.has_vpn(trampoline_vpn()) && !tc.has_vpn(trampoline_vpn()));
            assert forall|i: int, k: int, j: int|
                0 <= i < n && 0 <= k < seg_end_vpn(segs[i]) - seg_first_vpn(segs[i]) && 0 <= j < PAGE_SIZE
                implies #[trigger] mem.page(ms.frames()[(seg_first_vpn(segs[i]) + k) as usize] as int)[j]
                == seg_byte(data@, segs[i], k * PAGE_SIZE + j) by {
                let v = (seg_first_vpn(segs[i]) + k) as usize;
                assert(seg_area_ok(ms0.areas()[i], segs[i]));
                assert(ms0.areas()[i].has_vpn(v as int));
                assert(ms0.areas()[i].mapped_in(ms0.mappings(), ms0.frames()));
                assert(ms0.mappings().contains_key(v));
                assert(ms0.frames().contains_key(v));
                assert(ms.mappings().contains_key(v) == ms0.mappings().contains_key(v));
                assert(!st.has_vpn(v as int));
                assert(!tc.has_vpn(v as int));
                assert(ms.frames()[v] == ms0.frames()[v]);
                assert(a1.is_allocated(ms0.frames()[v] as int));
                a1.lemma_bounds();
                assert(mem.has(ms0.frames()[v] as int));
                assert(mem.page(ms0.frames()[v] as int) == m1.page(ms0.frames()[v] as int));
            }
            assert forall|v: usize| #[trigger] ms.frames().contains_key(v)
                implies newly_allocated(a0, *allocator, ms.frames()[v] as int) by {
                if !st.has_vpn(v as int) && !tc.has_vpn(v as int) {
                    assert(ms.mappings().contains_key(v) == ms0.mappings().contains_key(v));
                    assert(ms0.frames().contains_key(v));
                }
            }
            assert forall|rr: int| mem.has(rr) && !newly_allocated(a0, *allocator, rr)
                implies #[trigger] mem.page(rr) == m0.page(rr) by {
                assert(!newly_allocated(a1, *allocator, rr));
                assert(!newly_allocated(a0, a1, rr));
            }
        }
        Some((ms, ustack_base, entry))
    }

    /// Read the ELF file `data` with `xmas_elf` and build the address space
    /// of its image from its loadable segments (see
    /// [`MemorySet::from_segments`]). Returns the space, where the user stack
    /// goes (a guard page above the pages of the last segment) and the entry
    /// point; `None` when the file cannot be read, its segments cannot be
    /// loaded (see [`segs_ok`]) or `allocator` lacks frames for them, and
    /// then nothing changes. The space holds the trampoline and the
    /// segments: the main thread's trap context page and user stack are
    /// mapped by [`MemorySet::from_elf`], or by whoever takes the thread's
    /// resources (see [`crate::task::tcb::TaskUserRes::alloc_user_res`], as
    /// [`crate::task::pcb::ProcessControlBlock::new`] and
    /// [`crate::task::pcb::ProcessControlBlock::exec`] do)
    pub fn from_elf_image(
        data: &[u8],
        strampoline: usize,
        allocator: &mut StackFrameAllocator,
        mem: &mut PhysMem,
    ) -> (r: Option<(MemorySet, usize, usize)>)
        requires
            strampoline % PAGE_SIZE == 0,
            old(allocator).wf(),
            old(mem).wf(),
            old(allocator).end() <= old(mem).npages(),
        ensures
            ({
                let segs = load_segments(data@, elf_ph_count(data@) as int);
                let ok = elf_parses(data@) && segs is Some && segs_ok(segs->0, data@.len() as int)
                    && 1 + segs_pages(segs->0) <= old(allocator).available();
                &&& r is Some ==> ok
                &&& !ok ==> r is None
                &&& r is None ==> *final(allocator) == *old(allocator) && *final(mem) == *old(mem)
                &&& r matches Some((ms, ustack_base, entry)) ==> {
                    let s = segs->0;
                    &&& loaded(ms, *final(mem), s, data@, strampoline)
                    &&& entry == elf_entry(data@) as usize
                    &&& ustack_base == (((if s.len() == 0 { 0 } else { seg_end_vpn(s.last()) }) * PAGE_SIZE + PAGE_SIZE) as u64) as usize
                    &&& ms.frames_allocated(*final(allocator))
                    &&& forall|v: usize| #[trigger] ms.frames().contains_key(v)
                        ==> newly_allocated(*old(allocator), *final(allocator), ms.frames()[v] as int)
                    &&& forall|q: int| #[trigger] old(allocator).is_allocated(q) ==> final(allocator).is_allocated(q)
                    &&& final(allocator).available() == old(allocator).available() - 1 - segs_pages(s)
                    &&& final(allocator).wf()
                    &&& final(allocator).end() == old(allocator).end()
                    &&& final(mem).wf()
                    &&& final(mem).npages() == old(mem).npages()
                    &&& forall|rr: int| final(mem).has(rr) && !newly_allocated(*old(allocator), *final(allocator), rr)
                        ==> #[trigger] final(mem).page(rr) == old(mem).page(rr)
                }
            }),
    {
        let img = match elf_new(data) {
            Some(img) => img,
            None => return None,
        };
        let segs = match elf_segments(&img) {
            Some(segs) => segs,
            None => return None,
        };
        if !segments_fit(&segs, data.len(), allocator.available_frames()) {
            return None;
        }
        let entry = elf_entry_point(&img);
        let ms = MemorySet::from_segments(&segs, data, strampoline, allocator, mem);
        let n = segs.len();
        proof {
            if n > 0 {
                assert(seg_ok(segs@[n - 1], data@.len() as int));
            }
        }
        let max_end_vpn = if n == 0 {
            0
        } else {
            VirtAddr::from_usize((segs[n - 1].vaddr + segs[n - 1].mem_size) as usize).as_vpn_by_ceil().0
        };
        let x = if n == 0 { 0 } else { VirtAddr::from_usize((segs[n - 1].vaddr + segs[n - 1].mem_size) as usize).0 };
        assert(max_end_vpn <= 0x800_0000) by (nonlinear_arith)
            requires
                max_end_vpn == (x + 4095) / 4096,
                x < 0x80_0000_0000,
        ;
        let base = max_end_vpn as u64 * (PAGE_SIZE as u64) + PAGE_SIZE as u64;
        Some((ms, base as usize, entry as usize))
    }
}

/// Whether the main thread of a process loaded from the segments `segs`, with
/// its user stack based at `ustack_base`, fits: the stack lies in SV39 space,
/// the trap context page is not the last SV39 page nor on the stack, and
/// neither meets the trampoline or a segment.
pub open spec fn image_fits(segs: Seq<ElfSegment>, ustack_base: usize) -> bool {
    let res = TaskUserRes { tid: 0, ustack_base };
    let first = ustack_bottom(res) / PAGE_SIZE as int;
    let end = ustack_end_vpn(res);
    let tv = trap_cx_vpn(0);
    &&& ustack_bottom(res) + USER_STACK_SIZE < 0x80_0000_0000
    &&& ustack_bottom(res) + USER_STACK_SIZE <= usize::MAX
    &&& tv + 1 < 0x800_0000
    &&& !(first <= tv < end)
    &&& tv != trampoline_vpn()
    &&& forall|i: int| 0 <= i < segs.len() ==> !(seg_first_vpn(#[trigger] segs[i]) <= tv < seg_end_vpn(segs[i]))
    &&& !(first <= trampoline_vpn() < end)
    &&& forall|i: int| 0 <= i < segs.len() ==> {
        ||| seg_end_vpn(#[trigger] segs[i]) <= seg_first_vpn(segs[i])
        ||| end <= seg_first_vpn(segs[i])
        ||| seg_end_vpn(segs[i]) <= first
    }
}

/// Where the user stack of a process loaded from the segments `segs` starts:
/// a guard page above the last segment.
pub open spec fn image_ustack_base(segs: Seq<ElfSegment>) -> usize {
    (((if segs.len() == 0 { 0 } else { seg_end_vpn(segs.last()) }) * PAGE_SIZE + PAGE_SIZE) as u64) as usize
}

/// In a space that holds exactly the trampoline and the segments `segs`, the
/// main thread's resources can be mapped exactly when they fit beside them.
pub proof fn lemma_image_fits(ms: MemorySet, mem: PhysMem, segs: Seq<ElfSegment>, data: Seq<u8>, strampoline: usize, ustack_base: usize)
    requires
        loaded(ms, mem, segs, data, strampoline),
    ensures
        user_res_fit(TaskUserRes { tid: 0, ustack_base }, ms) == image_fits(segs, ustack_base),
{
    let res = TaskUserRes { tid: 0, ustack_base };
    let first = ustack_bottom(res) / PAGE_SIZE as int;
    let end = ustack_end_vpn(res);
    let tv = trap_cx_vpn(0);
    ms.lemma_areas_mapped();
    // a page is mapped exactly when it is the trampoline or a page of a segment
    assert forall|v: usize| #[trigger] ms.mappings().contains_key(v) <==> (v == trampoline_vpn()
        || exists|i: int| 0 <= i < segs.len() && seg_first_vpn(#[trigger] segs[i]) <= v < seg_end_vpn(segs[i])) by {
        if ms.mappings().contains_key(v) && v != trampoline_vpn() {
            let i = choose|i: int| 0 <= i < segs.len() && #[trigger] ms.areas()[i].has_vpn(v as int);
            assert(seg_area_ok_at(ms, segs, i));
        }
        if exists|i: int| 0 <= i < segs.len() && seg_first_vpn(#[trigger] segs[i]) <= v < seg_end_vpn(segs[i]) {
            let i = choose|i: int| 0 <= i < segs.len() && seg_first_vpn(#[trigger] segs[i]) <= v < seg_end_vpn(segs[i]);
            assert(seg_area_ok_at(ms, segs, i));
            assert(ms.areas()[i].mapped_in(ms.mappings(), ms.frames()));
            assert(ms.areas()[i].has_vpn(v as int));
        }
    }
    if user_res_fit(res, ms) {
        assert forall|i: int| 0 <= i < segs.len() implies !(seg_first_vpn(#[trigger] segs[i]) <= tv < seg_end_vpn(segs[i])) by {
            if seg_first_vpn(segs[i]) <= tv < seg_end_vpn(segs[i]) {
                assert(ms.mappings().contains_key(tv as usize));
            }
        }
        if first <= trampoline_vpn() < end {
            assert(ms.mappings().contains_key(trampoline_vpn() as usize));
        }
        assert forall|i: int| 0 <= i < segs.len() implies {
            ||| seg_end_vpn(#[trigger] segs[i]) <= seg_first_vpn(segs[i])
            ||| end <= seg_first_vpn(segs[i])
            ||| seg_end_vpn(segs[i]) <= first
        } by {
            let sf = seg_first_vpn(segs[i]);
            let se = seg_end_vpn(segs[i]);
            if sf < se && sf < end && first < se {
                let v: int = if sf <= first { first } else { sf };
                assert(0 <= v);
                assert(ms.mappings().contains_key(v as usize));
            }
        }
        assert(tv != trampoline_vpn()) by {
            assert(ms.mappings().contains_key(trampoline_vpn() as usize));
        }
    }
    if image_fits(segs, ustack_base) {
        assert forall|v: usize| first <= v < end implies !#[trigger] ms.mappings().contains_key(v) by {
            if ms.mappings().contains_key(v) {
                assert(v != trampoline_vpn());
                let i = choose|i: int| 0 <= i < segs.len() && seg_first_vpn(#[trigger] segs[i]) <= v < seg_end_vpn(segs[i]);
            }
        }
        assert(!ms.mappings().contains_key(tv as usize)) by {
            if ms.mappings().contains_key(tv as usize) {
                let i = choose|i: int| 0 <= i < segs.len() && seg_first_vpn(#[trigger] segs[i]) <= tv < seg_end_vpn(segs[i]);
            }
        }
    }
}

/// Area `i` of `ms` is the area of segment `i` of `segs`.
spec fn seg_area_ok_at(ms: MemorySet, segs: Seq<ElfSegment>, i: int) -> bool {
    seg_area_ok(ms.areas()[i], segs[i])
}

} // verus!
