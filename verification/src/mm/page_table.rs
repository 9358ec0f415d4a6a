//! Page tables: which physical page each virtual page maps to, and the
//! data frames the table owns.

use vstd::prelude::*;
use std::collections::BTreeMap;
use super::address::{PhysAddr, PhysPageNum, VirtAddr, VirtPageNum, PAGE_SIZE};
use super::frame_allocator::{frame_dealloc, FrameTracker, StackFrameAllocator};

verus! {

broadcast use vstd::std_specs::btree::group_btree_axioms;

/// Page table entry flags: valid
pub const PTE_V: u8 = 1;
/// Page table entry flags: readable
pub const PTE_R: u8 = 2;
/// Page table entry flags: writable
pub const PTE_W: u8 = 4;
/// Page table entry flags: executable
pub const PTE_X: u8 = 8;
/// Page table entry flags: user accessible
pub const PTE_U: u8 = 16;

/// A page table entry: the physical page and the flags
#[derive(Clone, Copy, Debug, PartialEq, Eq, Structural)]
pub struct PageTableEntry {
    pub ppn: PhysPageNum,
    pub flags: u8,
}

impl PageTableEntry {
    /// The physical page
    pub fn ppn(&self) -> (p: PhysPageNum)
        ensures
            p == self.ppn,
    {
        self.ppn
    }

    /// Whether the entry is valid
    pub fn is_valid(&self) -> (b: bool)
        ensures
            b == (self.flags & PTE_V != 0),
    {
        self.flags & PTE_V != 0
    }

    /// Whether the page is readable
    pub fn readable(&self) -> (b: bool)
        ensures
            b == (self.flags & PTE_R != 0),
    {
        self.flags & PTE_R != 0
    }

    /// Whether the page is writable
    pub fn is_writable(&self) -> (b: bool)
        ensures
            b == (self.flags & PTE_W != 0),
    {
        self.flags & PTE_W != 0
    }

    /// Whether the page is executable
    pub fn is_executable(&self) -> (b: bool)
        ensures
            b == (self.flags & PTE_X != 0),
    {
        self.flags & PTE_X != 0
    }
}

/// A page table: its root page, its mappings and the data frames it owns
pub struct PageTable {
    root_ppn: PhysPageNum,
    table: BTreeMap<usize, PageTableEntry>,
    data_frames: BTreeMap<usize, FrameTracker>,
}

impl PageTable {
    /// The root page of the table.
    pub closed spec fn root(&self) -> usize {
        self.root_ppn.0
    }

    /// The mapping from virtual page numbers to entries.
    pub closed spec fn mappings(&self) -> Map<usize, PageTableEntry> {
        self.table@
    }

    /// The data frame owned for each virtual page, by physical page number.
    pub closed spec fn frames(&self) -> Map<usize, usize> {
        self.data_frames@.map_values(|f: FrameTracker| f.ppn.0)
    }

    /// A page table with the given root page and no mapping
    pub fn new(root: FrameTracker) -> (pt: Self)
        ensures
            pt.root() == root.ppn.0,
            pt.mappings() == Map::<usize, PageTableEntry>::empty(),
            pt.frames() == Map::<usize, usize>::empty(),
    {
        let pt = PageTable { root_ppn: root.ppn, table: BTreeMap::new(), data_frames: BTreeMap::new() };
        assert(pt.frames() =~= Map::<usize, usize>::empty());
        pt
    }

    /// The `satp` value selecting this table in SV39 mode
    pub fn token(&self) -> (t: usize)
        requires
            self.root() < 0x1000_0000_0000,
        ensures
            usize::BITS == 64 ==> t as int == 0x8000_0000_0000_0000int + self.root(),
    {
        let r = self.root_ppn.0 as u64;
        let v: u64 = (8u64 << 60u64) | r;
        assert(v == 0x8000_0000_0000_0000u64 + r) by (bit_vector)
            requires
                v == (8u64 << 60u64) | r,
                r < 0x1000_0000_0000u64,
        ;
        v as usize
    }

    /// Map `vpn` to `ppn` with `flags`, marking the entry valid; `vpn` must
    /// not be mapped yet
    pub fn map(&mut self, vpn: VirtPageNum, ppn: PhysPageNum, flags: u8)
        requires
            !old(self).mappings().contains_key(vpn.0),
        ensures
            final(self).mappings() == old(self).mappings().insert(vpn.0, PageTableEntry { ppn, flags: flags | PTE_V }),
            final(self).frames() == old(self).frames(),
            final(self).root() == old(self).root(),
    {
        self.table.insert(vpn.0, PageTableEntry { ppn, flags: flags | PTE_V });
    }

    /// Remove the mapping of `vpn`, which must be mapped
    pub fn unmap(&mut self, vpn: VirtPageNum)
        requires
            old(self).mappings().contains_key(vpn.0),
        ensures
            final(self).mappings() == old(self).mappings().remove(vpn.0),
            final(self).frames() == old(self).frames(),
            final(self).root() == old(self).root(),
    {
        let _ = self.table.remove(&vpn.0);
    }

    /// The entry of `vpn`, if mapped
    pub fn translate(&self, vpn: VirtPageNum) -> (e: Option<PageTableEntry>)
        ensures
            e == (if self.mappings().contains_key(vpn.0) { Some(self.mappings()[vpn.0]) } else { None::<PageTableEntry> }),
    {
        match self.table.get(&vpn.0) {
            Some(e) => Some(*e),
            None => None,
        }
    }

    /// The physical address of virtual address `va`, if its page is mapped
    pub fn translate_va(&self, va: VirtAddr) -> (pa: Option<PhysAddr>)
        requires
            self.mappings().contains_key((va.0 / PAGE_SIZE) as usize) ==> self.mappings()[(va.0 / PAGE_SIZE) as usize].ppn.0
                < usize::MAX / PAGE_SIZE,
        ensures
            pa == (if self.mappings().contains_key((va.0 / PAGE_SIZE) as usize) {
                Some(PhysAddr((self.mappings()[(va.0 / PAGE_SIZE) as usize].ppn.0 * PAGE_SIZE + va.0 % PAGE_SIZE) as usize))
            } else {
                None::<PhysAddr>
            }),
    {
        match self.translate(va.as_vpn_by_floor()) {
            Some(pte) => {
                let ppn = pte.ppn();
                assert(ppn.0 * PAGE_SIZE + PAGE_SIZE <= usize::MAX) by (nonlinear_arith)
                    requires
                        ppn.0 < usize::MAX / 4096,
                ;
                let aligned = ppn.addr();
                Some(PhysAddr(aligned.0 + va.page_offset()))
            },
            None => None,
        }
    }

    /// Keep the data frame of `vpn`
    pub fn insert(&mut self, vpn: VirtPageNum, frame: FrameTracker)
        ensures
            final(self).frames() == old(self).frames().insert(vpn.0, frame.ppn.0),
            final(self).mappings() == old(self).mappings(),
            final(self).root() == old(self).root(),
    {
        self.data_frames.insert(vpn.0, frame);
        assert(self.frames() =~= old(self).frames().insert(vpn.0, frame.ppn.0));
    }

    /// Release the data frame of `vpn`, if any, to `allocator`
    pub fn remove(&mut self, vpn: VirtPageNum, allocator: &mut StackFrameAllocator)
        requires
            old(allocator).wf(),
            old(self).frames().contains_key(vpn.0) ==> old(allocator).is_allocated(old(self).frames()[vpn.0] as int),
        ensures
            final(allocator).wf(),
            final(self).frames() == old(self).frames().remove(vpn.0),
            final(self).mappings() == old(self).mappings(),
            final(self).root() == old(self).root(),
            old(self).frames().contains_key(vpn.0) ==> {
                &&& final(allocator).recycled() == old(allocator).recycled().push(old(self).frames()[vpn.0])
                &&& final(allocator).current() == old(allocator).current()
                &&& final(allocator).end() == old(allocator).end()
                &&& !final(allocator).is_allocated(old(self).frames()[vpn.0] as int)
                &&& forall|q: int| q != old(self).frames()[vpn.0] ==> #[trigger] final(allocator).is_allocated(q)
                    == old(allocator).is_allocated(q)
            },
            !old(self).frames().contains_key(vpn.0) ==> *final(allocator) == *old(allocator),
    {
        match self.data_frames.remove(&vpn.0) {
            Some(frame) => {
                frame_dealloc(allocator, frame.ppn);
            },
            None => {},
        }
        assert(self.frames() =~= old(self).frames().remove(vpn.0));
    }
}

} // verus!
