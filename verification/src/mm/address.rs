//! Physical and virtual addresses and page numbers of SV39, and the
//! physical memory they name.

use vstd::prelude::*;
use std::collections::BTreeMap;

verus! {

broadcast use vstd::std_specs::btree::group_btree_axioms;

/// Bytes in a page
pub const PAGE_SIZE: usize = 4096;

/// Bits of the offset inside a page
pub const PAGE_SIZE_BITS: usize = 12;

/// Highest address of physical memory
pub const MEMORY_END: usize = 0x8800_0000;

/// Number of valid bits of a virtual page number under SV39
pub const VPN_WIDTH_SV39: usize = 27;

/// Number of valid bits of a virtual address under SV39
pub const VA_WIDTH_SV39: usize = 39;

/// The highest page of the address space, shared by every space, where the
/// trap entry code lives
pub const TRAMPOLINE: usize = usize::MAX - PAGE_SIZE + 1;

/// Physical address
#[derive(Clone, Copy, Debug, PartialEq, Eq, Structural)]
pub struct PhysAddr(pub usize);

/// Virtual address
#[derive(Clone, Copy, Debug, PartialEq, Eq, Structural)]
pub struct VirtAddr(pub usize);

/// Physical page number
#[derive(Clone, Copy, Debug, PartialEq, Eq, Structural)]
pub struct PhysPageNum(pub usize);

/// Virtual page number
#[derive(Clone, Copy, Debug, PartialEq, Eq, Structural)]
pub struct VirtPageNum(pub usize);

impl PhysAddr {
    /// Offset inside the page
    pub fn page_offset(&self) -> (o: usize)
        ensures
            o == self.0 % PAGE_SIZE,
    {
        self.0 % PAGE_SIZE
    }

    /// Whether the address is the start of a page
    pub fn is_aligned(&self) -> (b: bool)
        ensures
            b == (self.0 % PAGE_SIZE == 0),
    {
        self.page_offset() == 0
    }

    /// The page holding the address
    pub fn as_ppn_by_floor(&self) -> (p: PhysPageNum)
        ensures
            p.0 == self.0 / PAGE_SIZE,
    {
        PhysPageNum(self.0 / PAGE_SIZE)
    }

    /// The first page starting at or after the address
    pub fn as_ppn_by_ceil(&self) -> (p: PhysPageNum)
        ensures
            p.0 == (self.0 + PAGE_SIZE - 1) / PAGE_SIZE as int,
    {
        PhysPageNum(self.0 / PAGE_SIZE + if self.0 % PAGE_SIZE == 0 { 0 } else { 1 })
    }
}

impl VirtAddr {
    /// The virtual address of `v`: its low `VA_WIDTH_SV39` bits
    pub fn from_usize(v: usize) -> (a: Self)
        ensures
            a.0 == v as int % 0x80_0000_0000int,
    {
        let x = v as u64;
        let m: u64 = x & 0x7f_ffff_ffffu64;
        assert(m == x % 0x80_0000_0000u64 && m <= x) by (bit_vector)
            requires
                m == x & 0x7f_ffff_ffffu64,
        ;
        VirtAddr(m as usize)
    }

    /// Offset inside the page
    pub fn page_offset(&self) -> (o: usize)
        ensures
            o == self.0 % PAGE_SIZE,
    {
        self.0 % PAGE_SIZE
    }

    /// The page holding the address
    pub fn as_vpn_by_floor(&self) -> (p: VirtPageNum)
        ensures
            p.0 == self.0 / PAGE_SIZE,
    {
        VirtPageNum(self.0 / PAGE_SIZE)
    }

    /// The first page starting at or after the address
    pub fn as_vpn_by_ceil(&self) -> (p: VirtPageNum)
        ensures
            p.0 == (self.0 + PAGE_SIZE - 1) / PAGE_SIZE as int,
    {
        VirtPageNum(self.0 / PAGE_SIZE + if self.0 % PAGE_SIZE == 0 { 0 } else { 1 })
    }
}

impl PhysPageNum {
    /// The address of the first byte of the page
    pub fn addr(&self) -> (a: PhysAddr)
        requires
            self.0 * PAGE_SIZE <= usize::MAX,
        ensures
            a.0 == self.0 * PAGE_SIZE,
    {
        PhysAddr(self.0 * PAGE_SIZE)
    }

    /// The next page
    pub fn step(&mut self)
        requires
            old(self).0 < usize::MAX,
        ensures
            final(self).0 == old(self).0 + 1,
    {
        self.0 = self.0 + 1;
    }
}

impl VirtPageNum {
    /// The address of the first byte of the page
    pub fn addr(&self) -> (a: VirtAddr)
        requires
            self.0 * PAGE_SIZE <= usize::MAX,
        ensures
            a.0 == self.0 * PAGE_SIZE,
    {
        VirtAddr(self.0 * PAGE_SIZE)
    }

    /// The next page
    pub fn step(&mut self)
        requires
            old(self).0 < usize::MAX,
        ensures
            final(self).0 == old(self).0 + 1,
    {
        self.0 = self.0 + 1;
    }
}

/// A range of virtual pages, `start` included and `end` excluded
#[derive(Clone, Copy, Debug, PartialEq, Eq, Structural)]
pub struct VPNRange {
    pub start: VirtPageNum,
    pub end: VirtPageNum,
}

impl VPNRange {
    /// The range `start..end`, which must not be reversed
    pub fn new(start: VirtPageNum, end: VirtPageNum) -> (r: Self)
        requires
            start.0 <= end.0,
        ensures
            r.start == start,
            r.end == end,
    {
        VPNRange { start, end }
    }

    /// Whether `vpn` lies in the range
    pub open spec fn contains(&self, vpn: int) -> bool {
        self.start.0 <= vpn < self.end.0
    }

    /// The first page
    pub fn start(&self) -> (v: VirtPageNum)
        ensures
            v == self.start,
    {
        self.start
    }

    /// The page after the last one
    pub fn end(&self) -> (v: VirtPageNum)
        ensures
            v == self.end,
    {
        self.end
    }
}

/// Physical memory: pages `0..npages`, each `PAGE_SIZE` bytes. Only the
/// pages written to are stored; the others read as zeros.
pub struct PhysMem {
    npages: usize,
    pages: BTreeMap<usize, Vec<u8>>,
}

impl PhysMem {
    /// Number of pages.
    pub closed spec fn npages(&self) -> int {
        self.npages as int
    }

    /// Whether page `ppn` exists.
    pub open spec fn has(&self, ppn: int) -> bool {
        0 <= ppn < self.npages()
    }

    /// The bytes of page `ppn`.
    pub closed spec fn page(&self, ppn: int) -> Seq<u8> {
        if self.pages@.contains_key(ppn as usize) {
            self.pages@[ppn as usize]@
        } else {
            Seq::new(PAGE_SIZE as nat, |i: int| 0u8)
        }
    }

    /// Every stored page holds `PAGE_SIZE` bytes and exists.
    pub closed spec fn wf(&self) -> bool {
        forall|k: usize| #[trigger] self.pages@.contains_key(k) ==> self.pages@[k]@.len() == PAGE_SIZE && k < self.npages
    }

    /// A page holds `PAGE_SIZE` bytes.
    pub proof fn lemma_page_len(&self, ppn: int)
        requires
            self.wf(),
            self.has(ppn),
        ensures
            self.page(ppn).len() == PAGE_SIZE,
            ppn < usize::MAX,
    {
    }

    /// `npages` zeroed pages.
    pub fn new(npages: usize) -> (m: Self)
        ensures
            m.wf(),
            m.npages() == npages,
            forall|p: int, i: int| m.has(p) && 0 <= i < PAGE_SIZE ==> #[trigger] m.page(p)[i] == 0u8,
    {
        PhysMem { npages, pages: BTreeMap::new() }
    }

    /// Number of pages
    pub fn num_pages(&self) -> (n: usize)
        ensures
            n == self.npages(),
    {
        self.npages
    }

    /// Byte `i` of page `ppn`.
    pub fn read_byte(&self, ppn: usize, i: usize) -> (b: u8)
        requires
            self.wf(),
            self.has(ppn as int),
            i < PAGE_SIZE,
        ensures
            b == self.page(ppn as int)[i as int],
    {
        match self.pages.get(&ppn) {
            Some(page) => page[i],
            None => 0u8,
        }
    }

    /// Set byte `i` of page `ppn` to `b`.
    pub fn write_byte(&mut self, ppn: usize, i: usize, b: u8)
        requires
            old(self).wf(),
            old(self).has(ppn as int),
            i < PAGE_SIZE,
        ensures
            final(self).wf(),
            final(self).npages() == old(self).npages(),
            final(self).page(ppn as int) == old(self).page(ppn as int).update(i as int, b),
            forall|p: int| p != ppn && final(self).has(p) ==> #[trigger] final(self).page(p) == old(self).page(p),
    {
        let mut page = match self.pages.remove(&ppn) {
            Some(page) => page,
            None => zeroed_page(),
        };
        page.set(i, b);
        self.pages.insert(ppn, page);
        proof {
            assert(self.page(ppn as int) =~= old(self).page(ppn as int).update(i as int, b));
            assert forall|p: int| p != ppn && self.has(p) implies #[trigger] self.page(p) == old(self).page(p) by {
                assert(self.pages@.contains_key(p as usize) == old(self).pages@.contains_key(p as usize));
            }
        }
    }

    /// Copy page `src` over page `dst`.
    pub fn copy_page(&mut self, src: usize, dst: usize)
        requires
            old(self).wf(),
            old(self).has(src as int),
            old(self).has(dst as int),
            src != dst,
        ensures
            final(self).wf(),
            final(self).npages() == old(self).npages(),
            final(self).page(dst as int) == old(self).page(src as int),
            forall|p: int| p != dst && final(self).has(p) ==> #[trigger] final(self).page(p) == old(self).page(p),
    {
        let mut i: usize = 0;
        while i < PAGE_SIZE
            invariant
                self.wf(),
                old(self).wf(),
                self.has(src as int),
                self.has(dst as int),
                src != dst,
                i <= PAGE_SIZE,
                self.npages() == old(self).npages(),
                self.page(dst as int).len() == PAGE_SIZE,
                old(self).page(src as int).len() == PAGE_SIZE,
                forall|j: int| 0 <= j < i ==> #[trigger] self.page(dst as int)[j] == old(self).page(src as int)[j],
                forall|p: int| p != dst && self.has(p) ==> #[trigger] self.page(p) == old(self).page(p),
            decreases PAGE_SIZE - i,
        {
            let b = self.read_byte(src, i);
            self.write_byte(dst, i, b);
            i = i + 1;
        }
        assert(self.page(dst as int) =~= old(self).page(src as int));
    }

    /// Fill page `ppn` with zeros.
    pub fn zero_page(&mut self, ppn: usize)
        requires
            old(self).wf(),
            old(self).has(ppn as int),
        ensures
            final(self).wf(),
            final(self).npages() == old(self).npages(),
            forall|i: int| 0 <= i < PAGE_SIZE ==> #[trigger] final(self).page(ppn as int)[i] == 0u8,
            final(self).page(ppn as int).len() == PAGE_SIZE,
            forall|p: int| p != ppn && final(self).has(p) ==> #[trigger] final(self).page(p) == old(self).page(p),
    {
        let _ = self.pages.remove(&ppn);
        proof {
            assert forall|p: int| p != ppn && self.has(p) implies #[trigger] self.page(p) == old(self).page(p) by {
                assert(self.pages@.contains_key(p as usize) == old(self).pages@.contains_key(p as usize));
            }
        }
    }
}

/// A page of zeros.
fn zeroed_page() -> (b: Vec<u8>)
    ensures
        b@.len() == PAGE_SIZE,
        forall|j: int| 0 <= j < PAGE_SIZE ==> #[trigger] b@[j] == 0u8,
{
    let mut b: Vec<u8> = Vec::new();
    let mut i: usize = 0;
    while i < PAGE_SIZE
        invariant
            i <= PAGE_SIZE,
            b@.len() == i,
            forall|j: int| 0 <= j < i ==> #[trigger] b@[j] == 0u8,
        decreases PAGE_SIZE - i,
    {
        b.push(0u8);
        i = i + 1;
    }
    b
}

} // verus!
