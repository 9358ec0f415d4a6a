//! Memory management: physical frames, address spaces and user buffers.

pub mod address;
pub mod elf;
pub mod frame_allocator;
pub mod memory_set;
pub mod page_table;

use vstd::prelude::*;
use self::address::{PhysAddr, PhysMem, VirtAddr, MEMORY_END, PAGE_SIZE};
use self::frame_allocator::StackFrameAllocator;
use self::memory_set::{kernel_layout_ok, newly_allocated, KernelLayout, MemorySet};
use self::page_table::PageTable;
use crate::fs::string_push;
use vstd::bytes::{spec_u64_from_le_bytes, spec_u64_to_le_bytes, u64_from_le_bytes, u64_to_le_bytes};
use self::address::VirtPageNum;

verus! {

/// Bytes `start..end` of physical page `ppn`
#[derive(Clone, Copy, Debug, PartialEq, Eq, Structural)]
pub struct UserSegment {
    pub ppn: usize,
    pub start: usize,
    pub end: usize,
}

/// The bytes a segment names, as physical page and offset.
pub open spec fn seg_bytes(s: UserSegment) -> Seq<(usize, usize)> {
    Seq::new((s.end - s.start) as nat, |j: int| (s.ppn, (s.start + j) as usize))
}

/// The bytes the segments name, in order.
pub open spec fn flat(segs: Seq<UserSegment>) -> Seq<(usize, usize)>
    decreases segs.len(),
{
    if segs.len() == 0 {
        Seq::empty()
    } else {
        flat(segs.drop_last()) + seg_bytes(segs.last())
    }
}

/// Where virtual address `va` lies in physical memory under `pt`: the page
/// and the offset in it.
pub open spec fn phys_of(pt: PageTable, va: int) -> (usize, usize) {
    (pt.mappings()[(va / PAGE_SIZE as int) as usize].ppn.0, (va % PAGE_SIZE as int) as usize)
}

/// Where the `n` bytes from virtual address `ptr` lie.
pub open spec fn user_bytes(pt: PageTable, ptr: int, n: int) -> Seq<(usize, usize)> {
    Seq::new(n as nat, |i: int| phys_of(pt, ptr + i))
}

/// Every page holding a byte of `ptr..ptr + len` is mapped.
pub open spec fn range_mapped(pt: PageTable, ptr: int, len: int) -> bool {
    forall|va: int| ptr <= va < ptr + len ==> #[trigger] pt.mappings().contains_key((va / PAGE_SIZE as int) as usize)
}

/// A segment is not reversed, lies within its page, and the page's address
/// fits a `usize`.
pub open spec fn seg_fits(s: UserSegment) -> bool {
    s.start <= s.end <= PAGE_SIZE && s.ppn < usize::MAX / PAGE_SIZE
}

/// A segment lies within one page and is not empty.
pub open spec fn seg_ok(s: UserSegment) -> bool {
    s.start < s.end <= PAGE_SIZE
}

/// An address `x` in page `q` has page number `q` and offset `x - q * PAGE_SIZE`.
proof fn lemma_in_page(x: int, q: int)
    by (nonlinear_arith)
    requires
        q * 4096 <= x < q * 4096 + 4096,
    ensures
        x / 4096 == q,
        x % 4096 == x - q * 4096,
{
}

/// Number of pages that the `len` bytes from address `ptr` touch.
pub open spec fn pages_touched(ptr: int, len: int) -> int {
    if len <= 0 { 0 } else { (ptr + len - 1) / PAGE_SIZE as int - ptr / PAGE_SIZE as int + 1 }
}

/// The segments of physical memory that hold the `len` bytes of user memory
/// from virtual address `ptr`, one per page touched, in order
pub fn translated_byte_buffer(page_table: &PageTable, ptr: usize, len: usize) -> (v: Vec<UserSegment>)
    requires
        ptr + len < 0x80_0000_0000,
        ptr + len + PAGE_SIZE <= usize::MAX,
        range_mapped(*page_table, ptr as int, len as int),
    ensures
        flat(v@) == user_bytes(*page_table, ptr as int, len as int),
        forall|k: int| 0 <= k < v@.len() ==> #[trigger] seg_ok(v@[k]),
        v@.len() == pages_touched(ptr as int, len as int),
{
    let mut start = ptr;
    let end = ptr + len;
    let mut v: Vec<UserSegment> = Vec::new();
    while start < end
        invariant
            ptr <= start <= end,
            end == ptr + len,
            end < 0x80_0000_0000,
            end + PAGE_SIZE <= usize::MAX,
            range_mapped(*page_table, ptr as int, len as int),
            flat(v@) == user_bytes(*page_table, ptr as int, start - ptr),
            forall|k: int| 0 <= k < v@.len() ==> #[trigger] seg_ok(v@[k]),
            v@.len() == pages_touched(ptr as int, start - ptr),
            start == ptr || start % 4096 == 0 || start == end,
        decreases end - start,
    {
        let start_va = VirtAddr::from_usize(start);
        let mut vpn = start_va.as_vpn_by_floor();
        let q = vpn.0;
        proof {
            assert(start_va.0 == start);
            lemma_in_page(start as int, q as int);
            assert(page_table.mappings().contains_key((start as int / PAGE_SIZE as int) as usize));
        }
        let ppn = page_table.translate(vpn).unwrap().ppn();
        assert(q * 4096 + 4096 <= usize::MAX);
        vpn.step();
        let mut end_va = vpn.addr();
        if end < end_va.0 {
            end_va = VirtAddr::from_usize(end);
        }
        let e = end_va.0;
        let off = start_va.page_offset();
        let seg = if end_va.page_offset() == 0 {
            UserSegment { ppn: ppn.0, start: off, end: PAGE_SIZE }
        } else {
            UserSegment { ppn: ppn.0, start: off, end: end_va.page_offset() }
        };
        proof {
            assert(start < e <= q * 4096 + 4096);
            if e < q * 4096 + 4096 {
                lemma_in_page(e as int, q as int);
            } else {
                lemma_in_page(q * 4096, q as int);
                assert(e % 4096 == 0) by (nonlinear_arith)
                    requires
                        e == q * 4096 + 4096,
                ;
            }
            assert(seg.end == e - q * 4096);
            assert(seg.start == start - q * 4096);
        }
        let ghost v0 = v@;
        v.push(seg);
        proof {
            assert(v@.drop_last() == v0);
            let n1 = e - ptr;
            assert forall|i: int| 0 <= i < n1 implies #[trigger] flat(v@)[i] == user_bytes(*page_table, ptr as int, n1)[i] by {
                if i >= start - ptr {
                    let j = i - (start - ptr);
                    lemma_in_page(start + j, q as int);
                    assert(flat(v@)[i] == seg_bytes(seg)[j]);
                }
            }
            assert(flat(v@) =~= user_bytes(*page_table, ptr as int, n1));
            let pq = ptr as int / 4096;
            assert(q == start as int / 4096);
            assert((e - 1) / 4096 == q) by (nonlinear_arith)
                requires
                    start < e <= q * 4096 + 4096,
                    q == start as int / 4096,
            ;
            if start == ptr {
                assert(pages_touched(ptr as int, e - ptr) == 1);
            } else {
                assert(start % 4096 == 0);
                assert((start - 1) / 4096 == q - 1) by (nonlinear_arith)
                    requires
                        start % 4096 == 0,
                        q == start as int / 4096,
                        start > 0,
                ;
                assert(pages_touched(ptr as int, start - ptr) == q - 1 - pq + 1);
                assert(pages_touched(ptr as int, e - ptr) == q - pq + 1);
            }
            if e < end {
                assert(e == q * 4096 + 4096);
                assert(e % 4096 == 0) by (nonlinear_arith)
                    requires
                        e == q * 4096 + 4096,
                ;
            }
        }
        start = e;
    }
    v
}

/// The byte at virtual address `va` under `pt`.
pub open spec fn byte_at(pt: PageTable, mem: PhysMem, va: int) -> u8 {
    mem.page(phys_of(pt, va).0 as int)[phys_of(pt, va).1 as int]
}

/// Virtual address `va` is an SV39 address whose page is mapped to a page of
/// `mem` whose address fits a `usize`.
pub open spec fn readable(pt: PageTable, mem: PhysMem, va: int) -> bool {
    &&& 0 <= va < 0x80_0000_0000
    &&& pt.mappings().contains_key((va / PAGE_SIZE as int) as usize)
    &&& va < usize::MAX
    &&& mem.has(phys_of(pt, va).0 as int)
    &&& phys_of(pt, va).0 < usize::MAX / PAGE_SIZE
}

/// The string of user memory from virtual address `ptr` up to, and without,
/// the first zero byte, one character per byte
pub fn translated_str(page_table: &PageTable, mem: &PhysMem, ptr: usize) -> (s: String)
    requires
        mem.wf(),
        exists|k: int|
            #![trigger byte_at(*page_table, *mem, ptr + k)]
            0 <= k && byte_at(*page_table, *mem, ptr + k) == 0
                && forall|i: int| 0 <= i <= k ==> #[trigger] readable(*page_table, *mem, ptr + i),
    ensures
        byte_at(*page_table, *mem, ptr + s@.len()) == 0,
        forall|i: int| 0 <= i < s@.len() ==> #[trigger] byte_at(*page_table, *mem, ptr + i) != 0,
        forall|i: int| 0 <= i < s@.len() ==> #[trigger] s@[i] == (byte_at(*page_table, *mem, ptr + i) as char),
{
    let ghost k = choose|k: int|
        #![trigger byte_at(*page_table, *mem, ptr + k)]
        0 <= k && byte_at(*page_table, *mem, ptr + k) == 0
            && forall|i: int| 0 <= i <= k ==> #[trigger] readable(*page_table, *mem, ptr + i);
    let mut string = String::new();
    let mut va = ptr;
    loop
        invariant
            mem.wf(),
            0 <= k,
            byte_at(*page_table, *mem, ptr + k) == 0,
            forall|i: int| 0 <= i <= k ==> #[trigger] readable(*page_table, *mem, ptr + i),
            ptr <= va <= ptr + k,
            string@.len() == va - ptr,
            forall|i: int| 0 <= i < string@.len() ==> #[trigger] byte_at(*page_table, *mem, ptr + i) != 0,
            forall|i: int| 0 <= i < string@.len() ==> #[trigger] string@[i] == (byte_at(*page_table, *mem, ptr + i) as char),
        ensures
            byte_at(*page_table, *mem, ptr + string@.len()) == 0,
            forall|i: int| 0 <= i < string@.len() ==> #[trigger] byte_at(*page_table, *mem, ptr + i) != 0,
            forall|i: int| 0 <= i < string@.len() ==> #[trigger] string@[i] == (byte_at(*page_table, *mem, ptr + i) as char),
        decreases ptr + k - va,
    {
        assert(readable(*page_table, *mem, ptr + (va - ptr)));
        let pa = page_table.translate_va(VirtAddr::from_usize(va)).unwrap();
        proof {
            lemma_in_page(va as int, va as int / 4096);
            mem.lemma_page_len(phys_of(*page_table, va as int).0 as int);
        }
        let ch: u8 = mem.read_byte(pa.0 / PAGE_SIZE, pa.0 % PAGE_SIZE);
        proof {
            let p = phys_of(*page_table, va as int).0 as int;
            let o = (va % 4096) as int;
            lemma_in_page(pa.0 as int, p);
            assert(ch == byte_at(*page_table, *mem, va as int));
        }
        if ch == 0 {
            break;
        }
        let ghost s0 = string@;
        string_push(&mut string, ch as char);
        proof {
            assert(va - ptr != k);
        }
        va = va + 1;
    }
    string
}

/// The physical address of the user object at virtual address `va`
pub fn translated_ref(page_table: &PageTable, va: usize) -> (pa: PhysAddr)
    requires
        page_table.mappings().contains_key((va / PAGE_SIZE) as usize),
        page_table.mappings()[(va / PAGE_SIZE) as usize].ppn.0 < usize::MAX / PAGE_SIZE,
        va < 0x80_0000_0000,
    ensures
        pa.0 == page_table.mappings()[(va / PAGE_SIZE) as usize].ppn.0 * PAGE_SIZE + va % PAGE_SIZE,
{
    page_table.translate_va(VirtAddr::from_usize(va)).unwrap()
}

/// The physical address of the user object at virtual address `va`, to be
/// written through
pub fn translated_mut_ref(page_table: &PageTable, va: usize) -> (pa: PhysAddr)
    requires
        page_table.mappings().contains_key((va / PAGE_SIZE) as usize),
        page_table.mappings()[(va / PAGE_SIZE) as usize].ppn.0 < usize::MAX / PAGE_SIZE,
        va < 0x80_0000_0000,
    ensures
        pa.0 == page_table.mappings()[(va / PAGE_SIZE) as usize].ppn.0 * PAGE_SIZE + va % PAGE_SIZE,
{
    page_table.translate_va(VirtAddr::from_usize(va)).unwrap()
}

/// Total number of bytes the segments name.
pub open spec fn total_len(segs: Seq<UserSegment>) -> int
    decreases segs.len(),
{
    if segs.len() == 0 {
        0
    } else {
        total_len(segs.drop_last()) + (segs.last().end - segs.last().start)
    }
}

/// A buffer of user memory, as the pieces of physical memory that hold it
pub struct UserBuffer {
    pub buffers: Vec<UserSegment>,
}

impl UserBuffer {
    /// The buffer made of `buffers`
    pub fn new(buffers: Vec<UserSegment>) -> (b: Self)
        ensures
            b.buffers@ == buffers@,
    {
        UserBuffer { buffers }
    }

    /// Number of bytes of the buffer
    pub fn len(&self) -> (n: usize)
        requires
            forall|k: int| 0 <= k < self.buffers@.len() ==> #[trigger] self.buffers@[k].start <= self.buffers@[k].end,
            total_len(self.buffers@) <= usize::MAX,
        ensures
            n == total_len(self.buffers@),
    {
        let mut n: usize = 0;
        let mut k: usize = 0;
        while k < self.buffers.len()
            invariant
                k <= self.buffers@.len(),
                forall|j: int| 0 <= j < self.buffers@.len() ==> #[trigger] self.buffers@[j].start <= self.buffers@[j].end,
                total_len(self.buffers@) <= usize::MAX,
                n == total_len(self.buffers@.take(k as int)),
            decreases self.buffers@.len() - k,
        {
            proof {
                assert(self.buffers@.take(k + 1).drop_last() == self.buffers@.take(k as int));
                lemma_total_len_prefix(self.buffers@, k + 1);
                lemma_total_len_mono(self.buffers@, k + 1);
            }
            let seg = self.buffers[k];
            n = n + (seg.end - seg.start);
            k = k + 1;
        }
        assert(self.buffers@.take(k as int) == self.buffers@);
        n
    }

    /// The physical address of every byte of the buffer, in order
    pub fn iter(&self) -> (v: Vec<PhysAddr>)
        requires
            forall|k: int| 0 <= k < self.buffers@.len() ==> seg_fits(#[trigger] self.buffers@[k]),
        ensures
            v@.len() == flat(self.buffers@).len(),
            forall|i: int| 0 <= i < v@.len() ==> #[trigger] v@[i].0 == flat(self.buffers@)[i].0 * PAGE_SIZE
                + flat(self.buffers@)[i].1,
    {
        byte_addresses(&self.buffers)
    }

    /// The physical address of every byte of the buffer, in order, to be
    /// written through
    pub fn iter_mut(&mut self) -> (v: Vec<PhysAddr>)
        requires
            forall|k: int| 0 <= k < old(self).buffers@.len() ==> seg_fits(#[trigger] old(self).buffers@[k]),
        ensures
            final(self).buffers@ == old(self).buffers@,
            v@.len() == flat(old(self).buffers@).len(),
            forall|i: int| 0 <= i < v@.len() ==> #[trigger] v@[i].0 == flat(old(self).buffers@)[i].0 * PAGE_SIZE
                + flat(old(self).buffers@)[i].1,
    {
        byte_addresses(&self.buffers)
    }
}

/// The total length of a prefix grows by the next segment.
proof fn lemma_total_len_prefix(segs: Seq<UserSegment>, k: int)
    requires
        0 < k <= segs.len(),
    ensures
        total_len(segs.take(k)) == total_len(segs.take(k - 1)) + (segs[k - 1].end - segs[k - 1].start),
{
    assert(segs.take(k).drop_last() == segs.take(k - 1));
}

/// The total length of a prefix is at most the total of non-reversed segments.
proof fn lemma_total_len_mono(segs: Seq<UserSegment>, k: int)
    requires
        0 <= k <= segs.len(),
        forall|j: int| 0 <= j < segs.len() ==> #[trigger] segs[j].start <= segs[j].end,
    ensures
        total_len(segs.take(k)) <= total_len(segs),
    decreases segs.len() - k,
{
    if k < segs.len() {
        lemma_total_len_prefix(segs, k + 1);
        lemma_total_len_mono(segs, k + 1);
    } else {
        assert(segs.take(k) == segs);
    }
}

/// The physical address of every byte the segments name
fn byte_addresses(segs: &Vec<UserSegment>) -> (v: Vec<PhysAddr>)
    requires
        forall|k: int| 0 <= k < segs@.len() ==> seg_fits(#[trigger] segs@[k]),
    ensures
        v@.len() == flat(segs@).len(),
        forall|i: int| 0 <= i < v@.len() ==> #[trigger] v@[i].0 == flat(segs@)[i].0 * PAGE_SIZE + flat(segs@)[i].1,
{
    let mut v: Vec<PhysAddr> = Vec::new();
    let mut k: usize = 0;
    while k < segs.len()
        invariant
            k <= segs@.len(),
            forall|j: int| 0 <= j < segs@.len() ==> seg_fits(#[trigger] segs@[j]),
            v@.len() == flat(segs@.take(k as int)).len(),
            forall|i: int| 0 <= i < v@.len() ==> #[trigger] v@[i].0 == flat(segs@.take(k as int))[i].0 * PAGE_SIZE
                + flat(segs@.take(k as int))[i].1,
        decreases segs@.len() - k,
    {
        let seg = segs[k];
        assert(seg_fits(segs@[k as int]));
        assert(seg.ppn * 4096 <= usize::MAX) by (nonlinear_arith)
            requires
                seg.ppn < usize::MAX / 4096,
        ;
        let base = seg.ppn * PAGE_SIZE;
        let ghost v0 = v@;
        let ghost f0 = flat(segs@.take(k as int));
        let mut off = seg.start;
        while off < seg.end
            invariant
                seg.start <= off <= seg.end <= PAGE_SIZE,
                base == seg.ppn * PAGE_SIZE,
                seg.ppn < usize::MAX / PAGE_SIZE,
                v@.len() == v0.len() + (off - seg.start),
                forall|i: int| 0 <= i < v0.len() ==> #[trigger] v@[i] == v0[i],
                forall|j: int| 0 <= j < off - seg.start ==> #[trigger] v@[v0.len() + j].0 == base + seg.start + j,
            decreases seg.end - off,
        {
            assert(base + off <= usize::MAX) by (nonlinear_arith)
                requires
                    base == seg.ppn * 4096,
                    seg.ppn < usize::MAX / 4096,
                    off < 4096,
            ;
            v.push(PhysAddr(base + off));
            off = off + 1;
        }
        proof {
            let t1 = segs@.take(k + 1);
            assert(t1.drop_last() == segs@.take(k as int));
            assert(t1.last() == seg);
            assert(flat(t1) == f0 + seg_bytes(seg));
            assert forall|i: int| 0 <= i < v@.len() implies #[trigger] v@[i].0 == flat(t1)[i].0 * PAGE_SIZE + flat(t1)[i].1 by {
                if i >= v0.len() {
                    let j = i - v0.len();
                    assert(v@[v0.len() + j].0 == base + seg.start + j);
                }
            }
        }
        k = k + 1;
    }
    assert(segs@.take(k as int) == segs@);
    v
}

/// Start memory management: hand out the frames from the end of the kernel
/// image to [`MEMORY_END`], and build the kernel's address space
pub fn init(
    allocator: &mut StackFrameAllocator,
    mem: &mut PhysMem,
    layout: &KernelLayout,
    mmio: &[(usize, usize)],
) -> (kernel_space: MemorySet)
    requires
        old(allocator).wf(),
        old(allocator).recycled().len() == 0,
        old(mem).wf(),
        old(mem).npages() >= MEMORY_END / PAGE_SIZE,
        layout.ekernel < MEMORY_END - PAGE_SIZE,
        kernel_layout_ok(*layout, mmio@),
    ensures
        kernel_space.wf(),
        kernel_space.frames_allocated(*final(allocator)),
        final(allocator).wf(),
        final(allocator).end() == MEMORY_END / PAGE_SIZE,
        (layout.ekernel + PAGE_SIZE - 1) / PAGE_SIZE as int <= kernel_space.pt().root() < MEMORY_END / PAGE_SIZE,
        final(allocator).is_allocated(kernel_space.pt().root() as int),
        final(mem).wf(),
        final(mem).npages() == old(mem).npages(),
{
    frame_allocator::init(allocator, layout.ekernel);
    let ghost a1 = *allocator;
    proof {
        assert((layout.ekernel + 4095) / 4096 < 0x8800_0000int / 4096) by (nonlinear_arith)
            requires
                layout.ekernel < 0x8800_0000 - 4096,
        ;
    }
    let ms = MemorySet::new_kernel(layout, mmio, allocator, mem);
    proof {
        assert(a1.recycled().len() == 0);
        assert(newly_allocated(a1, *allocator, ms.pt().root() as int));
        allocator.lemma_bounds();
    }
    ms
}

/// Distinct virtual addresses of `lo..hi` lie at distinct places of
/// physical memory under `pt`.
pub open spec fn injective_on(pt: PageTable, lo: int, hi: int) -> bool {
    forall|x: int, y: int|
        #![trigger phys_of(pt, x), phys_of(pt, y)]
        lo <= x < hi && lo <= y < hi && x != y ==> phys_of(pt, x) != phys_of(pt, y)
}

/// Whether some byte of `va..va + len` lies where virtual address `x` lies.
pub open spec fn shares_place(pt: PageTable, va: int, len: int, x: int) -> bool {
    exists|i: int| 0 <= i < len && #[trigger] phys_of(pt, va + i) == phys_of(pt, x)
}

/// Whether a byte of `lo..hi` lies in physical page `p`.
pub open spec fn touches_page(pt: PageTable, lo: int, hi: int, p: int) -> bool {
    exists|x: int| lo <= x < hi && #[trigger] phys_of(pt, x).0 == p
}

/// A byte of a part of a range is a byte of the range.
proof fn lemma_sub_touch(pt: PageTable, lo: int, hi: int, wlo: int, whi: int, p: int)
    requires
        lo <= wlo,
        whi <= hi,
        touches_page(pt, wlo, whi, p),
    ensures
        touches_page(pt, lo, hi, p),
{
    let x = choose|x: int| wlo <= x < whi && #[trigger] phys_of(pt, x).0 == p;
    assert(lo <= x < hi && phys_of(pt, x).0 == p);
}

/// Write `bytes` to user memory from virtual address `va`
pub fn write_user_bytes(page_table: &PageTable, mem: &mut PhysMem, va: usize, bytes: &[u8])
    requires
        old(mem).wf(),
        forall|i: int| 0 <= i < bytes@.len() ==> #[trigger] readable(*page_table, *old(mem), va + i),
        injective_on(*page_table, va as int, va + bytes@.len()),
    ensures
        final(mem).wf(),
        final(mem).npages() == old(mem).npages(),
        forall|i: int| 0 <= i < bytes@.len() ==> #[trigger] byte_at(*page_table, *final(mem), va + i) == bytes@[i],
        forall|x: int| readable(*page_table, *old(mem), x) && !shares_place(*page_table, va as int, bytes@.len() as int, x)
            ==> #[trigger] byte_at(*page_table, *final(mem), x) == byte_at(*page_table, *old(mem), x),
        forall|p: int| final(mem).has(p) && !touches_page(*page_table, va as int, va + bytes@.len(), p)
            ==> #[trigger] final(mem).page(p) == old(mem).page(p),
{
    let n = bytes.len();
    let mut i: usize = 0;
    while i < n
        invariant
            n == bytes@.len(),
            i <= n,
            mem.wf(),
            mem.npages() == old(mem).npages(),
            forall|j: int| 0 <= j < n ==> #[trigger] readable(*page_table, *old(mem), va + j),
            injective_on(*page_table, va as int, va + n),
            forall|j: int| 0 <= j < i ==> #[trigger] byte_at(*page_table, *mem, va + j) == bytes@[j],
            forall|x: int| readable(*page_table, *old(mem), x) && !shares_place(*page_table, va as int, i as int, x)
                ==> #[trigger] byte_at(*page_table, *mem, x) == byte_at(*page_table, *old(mem), x),
            forall|p: int| mem.has(p) && !touches_page(*page_table, va as int, va + i, p)
                ==> #[trigger] mem.page(p) == old(mem).page(p),
        decreases n - i,
    {
        let ghost m0 = *mem;
        assert(readable(*page_table, *old(mem), va + i));
        let v = va + i;
        let pa = page_table.translate_va(VirtAddr::from_usize(v)).unwrap();
        let ghost p = phys_of(*page_table, v as int);
        proof {
            lemma_in_page(v as int, v as int / 4096);
            lemma_in_page(pa.0 as int, p.0 as int);
            m0.lemma_page_len(p.0 as int);
        }
        mem.write_byte(pa.0 / PAGE_SIZE, pa.0 % PAGE_SIZE, bytes[i]);
        proof {
            assert(pa.0 / 4096 == p.0 && pa.0 % 4096 == p.1);
            assert forall|j: int| 0 <= j < i + 1 implies #[trigger] byte_at(*page_table, *mem, va + j) == bytes@[j] by {
                if j < i {
                    assert(phys_of(*page_table, va + j) != phys_of(*page_table, va + i));
                    assert(byte_at(*page_table, m0, va + j) == bytes@[j]);
                    let q = phys_of(*page_table, va + j);
                    assert(readable(*page_table, *old(mem), va + j));
                    lemma_in_page(va + j, (va + j) / 4096);
                    m0.lemma_page_len(q.0 as int);
                    if q.0 == p.0 {
                        assert(q.1 != p.1);
                    }
                }
            }
            assert forall|x: int| readable(*page_table, *old(mem), x) && !shares_place(*page_table, va as int, i + 1, x)
                implies #[trigger] byte_at(*page_table, *mem, x) == byte_at(*page_table, *old(mem), x) by {
                let q = phys_of(*page_table, x);
                lemma_in_page(x, x / 4096);
                m0.lemma_page_len(q.0 as int);
                assert(!shares_place(*page_table, va as int, i as int, x)) by {
                    if shares_place(*page_table, va as int, i as int, x) {
                        let k = choose|k: int| 0 <= k < i && #[trigger] phys_of(*page_table, va + k) == phys_of(*page_table, x);
                        assert(0 <= k < i + 1 && phys_of(*page_table, va + k) == phys_of(*page_table, x));
                    }
                }
                assert(byte_at(*page_table, m0, x) == byte_at(*page_table, *old(mem), x));
                assert(q != p) by {
                    if q == p {
                        assert(0 <= i < i + 1 && phys_of(*page_table, va + i) == phys_of(*page_table, x));
                    }
                }
                assert(!shares_place(*page_table, va as int, i as int, x)) by {
                    if shares_place(*page_table, va as int, i as int, x) {
                        let k = choose|k: int| 0 <= k < i && #[trigger] phys_of(*page_table, va + k) == phys_of(*page_table, x);
                        assert(0 <= k < i + 1 && phys_of(*page_table, va + k) == phys_of(*page_table, x));
                    }
                }
            }
            assert forall|q: int| mem.has(q) && !touches_page(*page_table, va as int, va + i + 1, q)
                implies #[trigger] mem.page(q) == old(mem).page(q) by {
                if touches_page(*page_table, va as int, va + i, q) {
                    lemma_sub_touch(*page_table, va as int, va + i + 1, va as int, va + i, q);
                }
                if q == p.0 {
                    assert(va <= v < va + i + 1 && phys_of(*page_table, v as int).0 == q);
                }
            }
        }
        i = i + 1;
    }
}


/// Bytes of the first `k` arguments, each with its ending zero.
pub open spec fn args_span(args: Seq<Vec<u8>>, k: int) -> int
    decreases k,
{
    if k <= 0 {
        0
    } else {
        args_span(args, k - 1) + args[k - 1]@.len() + 1
    }
}

/// Whether the arguments `args`, with the array of their addresses, take at
/// most `room` bytes (see [`args_span`] and [`argv_base`]).
pub fn args_fit(args: &Vec<Vec<u8>>, room: usize) -> (b: bool)
    ensures
        b == ((args@.len() + 1) * 8 + args_span(args@, args@.len() as int) <= room),
{
    let n = args.len();
    if n >= room / 8 {
        proof {
            lemma_args_span_nonneg(args@, n as int);
        }
        return false;
    }
    let mut total: usize = (n + 1) * 8;
    let mut i: usize = 0;
    while i < n
        invariant
            n == args@.len(),
            i <= n,
            total == (n + 1) * 8 + args_span(args@, i as int),
            total <= room,
        decreases n - i,
    {
        let len = args[i].len();
        if len >= room - total {
            proof {
                lemma_args_span_mono(args@, i as int + 1, n as int);
            }
            return false;
        }
        total = total + len + 1;
        i = i + 1;
    }
    true
}

/// Where the array of argument addresses starts, below the stack top `top`:
/// one eight-byte slot per argument and one for the ending zero.
pub open spec fn argv_base(top: int, args: Seq<Vec<u8>>) -> int {
    top - (args.len() + 1) * 8
}

/// Where argument `i` starts: the arguments lie below the array, the first
/// one highest.
pub open spec fn arg_addr(top: int, args: Seq<Vec<u8>>, i: int) -> int {
    argv_base(top, args) - args_span(args, i + 1)
}

/// The eight bytes of user memory from `va` hold `x`, least significant
/// byte first.
pub open spec fn holds_u64(pt: PageTable, mem: PhysMem, va: int, x: u64) -> bool {
    forall|j: int| 0 <= j < 8 ==> #[trigger] byte_at(pt, mem, va + j) == spec_u64_to_le_bytes(x)[j]
}

/// The bytes of user memory from `va` are those of `s`, then a zero.
pub open spec fn holds_str(pt: PageTable, mem: PhysMem, va: int, s: Seq<u8>) -> bool {
    &&& forall|j: int| 0 <= j < s.len() ==> #[trigger] byte_at(pt, mem, va + j) == s[j]
    &&& byte_at(pt, mem, va + s.len()) == 0
}

/// The arguments take no negative room.
pub proof fn lemma_args_span_nonneg(args: Seq<Vec<u8>>, k: int)
    ensures
        0 <= args_span(args, k),
    decreases k,
{
    if k > 0 {
        lemma_args_span_nonneg(args, k - 1);
    }
}

/// More arguments take at least as much room.
pub proof fn lemma_args_span_mono(args: Seq<Vec<u8>>, i: int, k: int)
    requires
        0 <= i <= k,
    ensures
        0 <= args_span(args, i) <= args_span(args, k),
    decreases k - i,
{
    lemma_args_span_nonneg(args, i);
    if i < k {
        lemma_args_span_mono(args, i, k - 1);
    }
}

/// A byte that shares its place with a byte of a part of a range shares it
/// with a byte of the range.
proof fn lemma_sub_place(pt: PageTable, va: int, len: int, wva: int, wlen: int, x: int)
    requires
        va <= wva,
        wva + wlen <= va + len,
        shares_place(pt, wva, wlen, x),
    ensures
        shares_place(pt, va, len, x),
{
    let k = choose|k: int| 0 <= k < wlen && #[trigger] phys_of(pt, wva + k) == phys_of(pt, x);
    let k2 = wva + k - va;
    assert(va + k2 == wva + k);
    assert(0 <= k2 < len && phys_of(pt, va + k2) == phys_of(pt, x));
}

/// In a range of user memory where no two bytes share a place, a write to one
/// part keeps the bytes of another part.
proof fn lemma_kept(pt: PageTable, mr: PhysMem, m0: PhysMem, m1: PhysMem, lo: int, hi: int, wva: int, wlen: int, va: int, n: int)
    requires
        mr.npages() == m0.npages(),
        injective_on(pt, lo, hi),
        lo <= wva,
        0 <= wlen,
        wva + wlen <= hi,
        lo <= va,
        0 <= n,
        va + n <= hi,
        va + n <= wva || wva + wlen <= va,
        forall|x: int| lo <= x < hi ==> #[trigger] readable(pt, mr, x),
        forall|x: int| readable(pt, m0, x) && !shares_place(pt, wva, wlen, x)
            ==> #[trigger] byte_at(pt, m1, x) == byte_at(pt, m0, x),
    ensures
        forall|x: int| va <= x < va + n ==> #[trigger] byte_at(pt, m1, x) == byte_at(pt, m0, x),
{
    assert forall|x: int| va <= x < va + n implies #[trigger] byte_at(pt, m1, x) == byte_at(pt, m0, x) by {
        assert(readable(pt, mr, x));
        assert(readable(pt, m0, x));
        if shares_place(pt, wva, wlen, x) {
            let k = choose|k: int| 0 <= k < wlen && #[trigger] phys_of(pt, wva + k) == phys_of(pt, x);
            assert(phys_of(pt, wva + k) != phys_of(pt, x));
        }
    }
}

/// Lay the arguments `args` out on the user stack that ends at `top`: right
/// below `top` the array of their addresses, eight bytes each, least
/// significant first, ended by a zero; below it each argument, ended by a
/// zero byte, the first one highest. Returns the new stack pointer, at the
/// last argument, and the address of the array. Only bytes that share a
/// place with the bytes between the two stack pointers change.
pub fn push_args(page_table: &PageTable, mem: &mut PhysMem, top: usize, args: &Vec<Vec<u8>>) -> (r: (usize, usize))
    requires
        old(mem).wf(),
        argv_base(top as int, args@) - args_span(args@, args@.len() as int) >= 0,
        forall|x: int|
            argv_base(top as int, args@) - args_span(args@, args@.len() as int) <= x < top
                ==> #[trigger] readable(*page_table, *old(mem), x),
        injective_on(*page_table, argv_base(top as int, args@) - args_span(args@, args@.len() as int), top as int),
    ensures
        final(mem).wf(),
        final(mem).npages() == old(mem).npages(),
        r.1 == argv_base(top as int, args@),
        r.0 == argv_base(top as int, args@) - args_span(args@, args@.len() as int),
        holds_u64(*page_table, *final(mem), r.1 + 8 * args@.len(), 0),
        forall|i: int| 0 <= i < args@.len()
            ==> #[trigger] holds_u64(*page_table, *final(mem), r.1 + 8 * i, arg_addr(top as int, args@, i) as u64),
        forall|i: int| 0 <= i < args@.len()
            ==> #[trigger] holds_str(*page_table, *final(mem), arg_addr(top as int, args@, i), args@[i]@),
        forall|x: int| readable(*page_table, *old(mem), x) && !shares_place(*page_table, r.0 as int, top - r.0, x)
            ==> #[trigger] byte_at(*page_table, *final(mem), x) == byte_at(*page_table, *old(mem), x),
        forall|p: int| final(mem).has(p) && !touches_page(*page_table, r.0 as int, top as int, p)
            ==> #[trigger] final(mem).page(p) == old(mem).page(p),
{
    let argc = args.len();
    let ghost pt = *page_table;
    let ghost m0 = *old(mem);
    let ghost lo = argv_base(top as int, args@) - args_span(args@, argc as int);
    proof {
        lemma_args_span_mono(args@, 0, argc as int);
    }
    let base: usize = top - (argc + 1) * 8;
    let zero = u64_to_le_bytes(0);
    write_user_bytes(page_table, mem, base + argc * 8, zero.as_slice());
    proof {
        assert forall|x: int| readable(pt, m0, x) && !shares_place(pt, base as int, top - base, x)
            implies #[trigger] byte_at(pt, *mem, x) == byte_at(pt, m0, x) by {
            if shares_place(pt, base + 8 * argc, 8, x) {
                lemma_sub_place(pt, base as int, top - base, base + 8 * argc, 8, x);
            }
        }
        assert forall|p: int| mem.has(p) && !touches_page(pt, base as int, top as int, p)
            implies #[trigger] mem.page(p) == m0.page(p) by {
            if touches_page(pt, base + 8 * argc, base + 8 * argc + 8, p) {
                lemma_sub_touch(pt, base as int, top as int, base + 8 * argc, base + 8 * argc + 8, p);
            }
        }
    }
    let nul: Vec<u8> = vec![0u8];
    let mut sp: usize = base;
    let mut i: usize = 0;
    while i < argc
        invariant
            argc == args@.len(),
            pt == *page_table,
            i <= argc,
            base == argv_base(top as int, args@),
            sp == base - args_span(args@, i as int),
            lo == argv_base(top as int, args@) - args_span(args@, argc as int),
            0 <= lo,
            nul@ == seq![0u8],
            mem.wf(),
            mem.npages() == m0.npages(),
            m0.wf(),
            forall|x: int| lo <= x < top ==> #[trigger] readable(pt, m0, x),
            injective_on(pt, lo, top as int),
            holds_u64(pt, *mem, base + 8 * argc, 0),
            forall|k: int| 0 <= k < i ==> #[trigger] holds_u64(pt, *mem, base + 8 * k, arg_addr(top as int, args@, k) as u64),
            forall|k: int| 0 <= k < i ==> #[trigger] holds_str(pt, *mem, arg_addr(top as int, args@, k), args@[k]@),
            forall|x: int| readable(pt, m0, x) && !shares_place(pt, sp as int, top - sp, x)
                ==> #[trigger] byte_at(pt, *mem, x) == byte_at(pt, m0, x),
            forall|p: int| mem.has(p) && !touches_page(pt, sp as int, top as int, p)
                ==> #[trigger] mem.page(p) == m0.page(p),
        decreases argc - i,
    {
        let len = args[i].len();
        proof {
            lemma_args_span_mono(args@, i + 1, argc as int);
            lemma_args_span_mono(args@, i as int, i + 1);
            assert(args_span(args@, i + 1) == args_span(args@, i as int) + len + 1);
        }
        let ghost sp0 = sp;
        sp = sp - (len + 1);
        let ghost m1 = *mem;
        assert forall|j: int| 0 <= j < len implies #[trigger] readable(pt, *mem, sp + j) by {
            assert(readable(pt, m0, sp + j));
        }
        write_user_bytes(page_table, mem, sp, args[i].as_slice());
        let ghost m2 = *mem;
        assert forall|j: int| 0 <= j < 1 implies #[trigger] readable(pt, *mem, sp + len + j) by {
            assert(readable(pt, m0, sp + len + j));
        }
        write_user_bytes(page_table, mem, sp + len, nul.as_slice());
        let ghost m3 = *mem;
        let addr = u64_to_le_bytes(sp as u64);
        assert forall|j: int| 0 <= j < 8 implies #[trigger] readable(pt, *mem, base + i * 8 + j) by {
            assert(readable(pt, m0, base + i * 8 + j));
        }
        write_user_bytes(page_table, mem, base + i * 8, addr.as_slice());
        let ghost m4 = *mem;
        proof {
            let a = arg_addr(top as int, args@, i as int);
            assert(a == sp);
            // the string, its ending zero and its address slot
            lemma_kept(pt, m0, m2, m3, lo, top as int, sp + len, 1, sp as int, len as int);
            lemma_kept(pt, m0, m3, m4, lo, top as int, base + 8 * i, 8, sp as int, len + 1);
            assert forall|j: int| 0 <= j < len implies #[trigger] byte_at(pt, m4, sp + j) == args@[i as int]@[j] by {
                assert(byte_at(pt, m2, sp + j) == args@[i as int]@[j]);
                assert(byte_at(pt, m3, sp + j) == byte_at(pt, m2, sp + j));
                assert(byte_at(pt, m4, sp + j) == byte_at(pt, m3, sp + j));
            }
            assert(byte_at(pt, m3, sp + len + 0) == 0u8);
            assert(byte_at(pt, m4, sp + len) == byte_at(pt, m3, sp + len));
            assert(holds_str(pt, *mem, a, args@[i as int]@));
            assert(holds_u64(pt, *mem, base + 8 * i, a as u64));
            // the terminating slot
            lemma_kept(pt, m0, m1, m2, lo, top as int, sp as int, len as int, base + 8 * argc, 8);
            lemma_kept(pt, m0, m2, m3, lo, top as int, sp + len, 1, base + 8 * argc, 8);
            lemma_kept(pt, m0, m3, m4, lo, top as int, base + 8 * i, 8, base + 8 * argc, 8);
            assert(holds_u64(pt, *mem, base + 8 * argc, 0));
            // earlier slots and strings
            assert forall|k: int| 0 <= k < i + 1 implies #[trigger] holds_u64(pt, *mem, base + 8 * k, arg_addr(top as int, args@, k) as u64) by {
                if k < i {
                    lemma_kept(pt, m0, m1, m2, lo, top as int, sp as int, len as int, base + 8 * k, 8);
                    lemma_kept(pt, m0, m2, m3, lo, top as int, sp + len, 1, base + 8 * k, 8);
                    lemma_kept(pt, m0, m3, m4, lo, top as int, base + 8 * i, 8, base + 8 * k, 8);
                    assert(holds_u64(pt, m1, base + 8 * k, arg_addr(top as int, args@, k) as u64));
                }
            }
            assert forall|k: int| 0 <= k < i + 1 implies #[trigger] holds_str(pt, *mem, arg_addr(top as int, args@, k), args@[k]@) by {
                if k < i {
                    let ak = arg_addr(top as int, args@, k);
                    let lk = args@[k]@.len() as int;
                    lemma_args_span_mono(args@, k + 1, i as int);
                    assert(args_span(args@, k + 1) == args_span(args@, k) + lk + 1);
                    lemma_args_span_mono(args@, k, k + 1);
                    lemma_kept(pt, m0, m1, m2, lo, top as int, sp as int, len as int, ak, lk + 1);
                    lemma_kept(pt, m0, m2, m3, lo, top as int, sp + len, 1, ak, lk + 1);
                    lemma_kept(pt, m0, m3, m4, lo, top as int, base + 8 * i, 8, ak, lk + 1);
                    assert(holds_str(pt, m1, ak, args@[k]@));
                }
            }
            // bytes that share no place with the stack written so far
            assert forall|x: int| readable(pt, m0, x) && !shares_place(pt, sp as int, top - sp, x)
                implies #[trigger] byte_at(pt, *mem, x) == byte_at(pt, m0, x) by {
                if shares_place(pt, sp0 as int, top - sp0, x) {
                    lemma_sub_place(pt, sp as int, top - sp, sp0 as int, top - sp0, x);
                }
                if shares_place(pt, sp as int, len as int, x) {
                    lemma_sub_place(pt, sp as int, top - sp, sp as int, len as int, x);
                }
                if shares_place(pt, sp + len, 1, x) {
                    lemma_sub_place(pt, sp as int, top - sp, sp + len, 1, x);
                }
                if shares_place(pt, base + 8 * i, 8, x) {
                    lemma_sub_place(pt, sp as int, top - sp, base + 8 * i, 8, x);
                }
            }
            assert forall|p: int| mem.has(p) && !touches_page(pt, sp as int, top as int, p)
                implies #[trigger] mem.page(p) == m0.page(p) by {
                if touches_page(pt, sp0 as int, top as int, p) {
                    lemma_sub_touch(pt, sp as int, top as int, sp0 as int, top as int, p);
                }
                if touches_page(pt, sp as int, sp + len, p) {
                    lemma_sub_touch(pt, sp as int, top as int, sp as int, sp + len, p);
                }
                if touches_page(pt, sp + len, sp + len + 1, p) {
                    lemma_sub_touch(pt, sp as int, top as int, sp + len, sp + len + 1, p);
                }
                if touches_page(pt, base + 8 * i, base + 8 * i + 8, p) {
                    lemma_sub_touch(pt, sp as int, top as int, base + 8 * i, base + 8 * i + 8, p);
                }
            }
        }
        i = i + 1;
    }
    (sp, base)
}

/// A copy made by [`MemorySet::duplicate`] reads, at every address of a page
/// with a frame, the byte that the copied space read there before the copy.
pub proof fn lemma_duplicate_reads_same(parent: MemorySet, child: MemorySet, m0: PhysMem, m1: PhysMem, va: int)
    requires
        parent.wf(),
        child.wf(),
        forall|v: usize| #[trigger] child.frames().contains_key(v) ==> {
            &&& parent.frames().contains_key(v)
            &&& m1.page(child.frames()[v] as int) == m0.page(parent.frames()[v] as int)
        },
        0 <= va,
        child.frames().contains_key((va / PAGE_SIZE as int) as usize),
    ensures
        byte_at(child.pt(), m1, va) == byte_at(parent.pt(), m0, va),
{
    let v = (va / PAGE_SIZE as int) as usize;
    parent.lemma_frames();
    child.lemma_frames();
    assert(parent.frames().contains_key(v));
    assert(phys_of(child.pt(), va).0 == child.frames()[v]);
    assert(phys_of(parent.pt(), va).0 == parent.frames()[v]);
}

/// Whether user memory can be read at `va` (see [`readable`])
pub fn is_readable(page_table: &PageTable, mem: &PhysMem, va: usize) -> (b: bool)
    ensures
        b == readable(*page_table, *mem, va as int),
{
    if va as u64 >= 0x80_0000_0000u64 || va == usize::MAX {
        return false;
    }
    match page_table.translate(VirtPageNum(va / PAGE_SIZE)) {
        None => false,
        Some(e) => e.ppn.0 < mem.num_pages() && e.ppn.0 < usize::MAX / PAGE_SIZE,
    }
}

/// The byte of user memory at `va`, which can be read
fn user_byte(page_table: &PageTable, mem: &PhysMem, va: usize) -> (b: u8)
    requires
        mem.wf(),
        readable(*page_table, *mem, va as int),
    ensures
        b == byte_at(*page_table, *mem, va as int),
{
    let pa = page_table.translate_va(VirtAddr::from_usize(va)).unwrap();
    proof {
        lemma_in_page(va as int, va as int / 4096);
        mem.lemma_page_len(phys_of(*page_table, va as int).0 as int);
        lemma_in_page(pa.0 as int, phys_of(*page_table, va as int).0 as int);
    }
    mem.read_byte(pa.0 / PAGE_SIZE, pa.0 % PAGE_SIZE)
}

/// The `len` bytes of user memory from virtual address `va`, in order
pub fn read_user_bytes(page_table: &PageTable, mem: &PhysMem, va: usize, len: usize) -> (v: Vec<u8>)
    requires
        mem.wf(),
        forall|i: int| 0 <= i < len ==> #[trigger] readable(*page_table, *mem, va + i),
    ensures
        v@.len() == len,
        forall|i: int| 0 <= i < len ==> #[trigger] v@[i] == byte_at(*page_table, *mem, va + i),
{
    let mut v: Vec<u8> = Vec::new();
    let mut i: usize = 0;
    while i < len
        invariant
            mem.wf(),
            i <= len,
            forall|k: int| 0 <= k < len ==> #[trigger] readable(*page_table, *mem, va + k),
            v@.len() == i,
            forall|k: int| 0 <= k < i ==> #[trigger] v@[k] == byte_at(*page_table, *mem, va + k),
        decreases len - i,
    {
        assert(readable(*page_table, *mem, va + i));
        let b = user_byte(page_table, mem, va + i);
        v.push(b);
        i = i + 1;
    }
    v
}

/// Whether the string of user memory at `ptr` can be read: its bytes up to
/// and with the first zero byte can be read.
pub open spec fn str_readable(pt: PageTable, mem: PhysMem, ptr: int) -> bool {
    exists|k: int|
        #![trigger byte_at(pt, mem, ptr + k)]
        0 <= k && byte_at(pt, mem, ptr + k) == 0 && forall|i: int| 0 <= i <= k ==> #[trigger] readable(pt, mem, ptr + i)
}

/// Whether `k` is the offset of the first zero byte of the string at `ptr`,
/// which can be read up to it.
pub open spec fn str_end(pt: PageTable, mem: PhysMem, ptr: int, k: int) -> bool {
    &&& 0 <= k
    &&& byte_at(pt, mem, ptr + k) == 0
    &&& forall|i: int| 0 <= i < k ==> #[trigger] byte_at(pt, mem, ptr + i) != 0
    &&& forall|i: int| 0 <= i <= k ==> #[trigger] readable(pt, mem, ptr + i)
}

/// The string of user memory at `ptr`, one character per byte, up to and
/// without the first zero byte.
pub open spec fn user_str(pt: PageTable, mem: PhysMem, ptr: int) -> Seq<char> {
    let k = choose|k: int| str_end(pt, mem, ptr, k);
    Seq::new(k as nat, |i: int| byte_at(pt, mem, ptr + i) as char)
}

/// The string of user memory at `ptr`, one character per byte, up to and
/// without the first zero byte; `None` when a byte up to that zero cannot be
/// read
pub fn read_user_str(page_table: &PageTable, mem: &PhysMem, ptr: usize) -> (r: Option<String>)
    requires
        mem.wf(),
    ensures
        r is Some <==> str_readable(*page_table, *mem, ptr as int),
        r matches Some(s) ==> s@ == user_str(*page_table, *mem, ptr as int),
{
    let ghost pt = *page_table;
    let mut va = ptr;
    loop
        invariant
            mem.wf(),
            pt == *page_table,
            ptr <= va,
            va > 0x80_0000_0000 ==> va == ptr,
            forall|i: int| ptr <= i < va ==> #[trigger] readable(pt, *mem, i),
            forall|i: int| ptr <= i < va ==> #[trigger] byte_at(pt, *mem, i) != 0,
        ensures
            ptr <= va,
            readable(pt, *mem, va as int),
            byte_at(pt, *mem, va as int) == 0,
            forall|i: int| ptr <= i < va ==> #[trigger] readable(pt, *mem, i),
            forall|i: int| ptr <= i < va ==> #[trigger] byte_at(pt, *mem, i) != 0,
        decreases 0x80_0000_0000 - va,
    {
        if !is_readable(page_table, mem, va) {
            proof {
                if str_readable(pt, *mem, ptr as int) {
                    let k = choose|k: int|
                        #![trigger byte_at(pt, *mem, ptr + k)]
                        0 <= k && byte_at(pt, *mem, ptr + k) == 0 && forall|i: int| 0 <= i <= k ==> #[trigger] readable(pt, *mem, ptr + i);
                    let x = ptr + k;
                    assert(byte_at(pt, *mem, x) == 0);
                    if x < va {
                        assert(byte_at(pt, *mem, x) != 0);
                    } else {
                        assert(0 <= va - ptr <= k);
                        assert(readable(pt, *mem, ptr + (va - ptr)));
                    }
                }
            }
            return None;
        }
        let b = user_byte(page_table, mem, va);
        if b == 0 {
            break;
        }
        assert(readable(pt, *mem, va as int) && byte_at(pt, *mem, va as int) != 0);
        va = va + 1;
    }
    let ghost k0 = va - ptr;
    proof {
        assert(str_end(pt, *mem, ptr as int, k0)) by {
            assert forall|i: int| 0 <= i < k0 implies #[trigger] byte_at(pt, *mem, ptr + i) != 0 by {
                assert(byte_at(pt, *mem, ptr + i) != 0);
            }
            assert forall|i: int| 0 <= i <= k0 implies #[trigger] readable(pt, *mem, ptr + i) by {
                if i < k0 {
                    assert(readable(pt, *mem, ptr + i));
                }
            }
        }
        assert(byte_at(pt, *mem, ptr + k0) == 0);
        let k = choose|k: int| str_end(pt, *mem, ptr as int, k);
        assert(k == k0) by {
            if k < k0 {
                assert(byte_at(pt, *mem, ptr + k) != 0);
            } else if k > k0 {
                assert(byte_at(pt, *mem, ptr + k0) != 0);
            }
        }
    }
    let s = translated_str(page_table, mem, ptr);
    proof {
        let k = choose|k: int| str_end(pt, *mem, ptr as int, k);
        if s@.len() < k0 {
            assert(byte_at(pt, *mem, ptr + s@.len()) != 0);
        } else if s@.len() > k0 {
            assert(byte_at(pt, *mem, ptr + k0) != 0);
        }
        assert(s@ =~= user_str(pt, *mem, ptr as int));
    }
    Some(s)
}

/// Whether the eight bytes of user memory from `va` can be read.
pub open spec fn u64_readable(pt: PageTable, mem: PhysMem, va: int) -> bool {
    forall|j: int| 0 <= j < 8 ==> #[trigger] readable(pt, mem, va + j)
}

/// The eight bytes of user memory from `va`, least significant first, as a
/// number.
pub open spec fn user_u64(pt: PageTable, mem: PhysMem, va: int) -> u64 {
    spec_u64_from_le_bytes(Seq::new(8, |j: int| byte_at(pt, mem, va + j)))
}

/// The number in the eight bytes of user memory from `va`, least significant
/// first; `None` when one of them cannot be read
pub fn read_user_u64(page_table: &PageTable, mem: &PhysMem, va: usize) -> (r: Option<u64>)
    requires
        mem.wf(),
    ensures
        r is Some <==> u64_readable(*page_table, *mem, va as int),
        r matches Some(x) ==> x == user_u64(*page_table, *mem, va as int),
{
    let ghost pt = *page_table;
    let mut bytes: Vec<u8> = Vec::new();
    let mut j: usize = 0;
    while j < 8
        invariant
            mem.wf(),
            pt == *page_table,
            j <= 8,
            bytes@.len() == j,
            forall|i: int| 0 <= i < j ==> #[trigger] readable(pt, *mem, va + i),
            forall|i: int| 0 <= i < j ==> #[trigger] bytes@[i] == byte_at(pt, *mem, va + i),
        decreases 8 - j,
    {
        let a = match va.checked_add(j) {
            Some(a) => a,
            None => {
                assert(!readable(pt, *mem, va + j));
                return None;
            },
        };
        if !is_readable(page_table, mem, a) {
            return None;
        }
        bytes.push(user_byte(page_table, mem, a));
        j = j + 1;
    }
    assert(bytes@ =~= Seq::new(8, |i: int| byte_at(pt, *mem, va + i)));
    Some(u64_from_le_bytes(bytes.as_slice()))
}

/// The strings that the array of string addresses at `ptr` names, up to the
/// first zero address, eight bytes each, least significant first; `None`
/// when an address or a string cannot be read.
pub open spec fn user_args(pt: PageTable, mem: PhysMem, ptr: int) -> Option<Seq<Seq<char>>>
    decreases 0x80_0000_0000 - ptr,
{
    if ptr < 0 || ptr + 8 > 0x80_0000_0000 || !u64_readable(pt, mem, ptr) {
        None
    } else if user_u64(pt, mem, ptr) == 0 {
        Some(Seq::empty())
    } else if !str_readable(pt, mem, (user_u64(pt, mem, ptr) as usize) as int) {
        None
    } else {
        match user_args(pt, mem, ptr + 8) {
            None => None,
            Some(rest) => Some(seq![user_str(pt, mem, (user_u64(pt, mem, ptr) as usize) as int)] + rest),
        }
    }
}

/// The strings that the array of string addresses at `ptr` names, up to the
/// first zero address; `None` when an address or a string cannot be read
pub fn read_user_args(page_table: &PageTable, mem: &PhysMem, ptr: usize) -> (r: Option<Vec<String>>)
    requires
        mem.wf(),
    ensures
        match r {
            Some(v) => user_args(*page_table, *mem, ptr as int) == Some(v@.map_values(|s: String| s@)),
            None => user_args(*page_table, *mem, ptr as int) is None,
        },
{
    let ghost pt = *page_table;
    let mut args: Vec<String> = Vec::new();
    let mut slot = ptr;
    loop
        invariant
            mem.wf(),
            pt == *page_table,
            ptr <= slot,
            user_args(pt, *mem, ptr as int) == (match user_args(pt, *mem, slot as int) {
                None => None,
                Some(rest) => Some(args@.map_values(|s: String| s@) + rest),
            }),
        decreases 0x80_0000_0000 - slot,
    {
        if slot as u64 > 0x80_0000_0000u64 - 8 {
            return None;
        }
        let v = match read_user_u64(page_table, mem, slot) {
            Some(v) => v,
            None => return None,
        };
        assert(readable(pt, *mem, slot + 7));
        if v == 0 {
            proof {
                assert(args@.map_values(|s: String| s@) + Seq::<Seq<char>>::empty() =~= args@.map_values(|s: String| s@));
            }
            return Some(args);
        }
        let s = match read_user_str(page_table, mem, v as usize) {
            Some(s) => s,
            None => return None,
        };
        let ghost before = args@.map_values(|s: String| s@);
        args.push(s);
        proof {
            assert(args@.map_values(|s: String| s@) =~= before.push(s@));
            match user_args(pt, *mem, slot + 8) {
                None => {},
                Some(rest) => {
                    assert(before + (seq![s@] + rest) =~= before.push(s@) + rest);
                },
            }
        }
        slot = slot + 8;
    }
}

/// Address spaces that share no frame are isolated: writing bytes of user
/// memory that lie in framed pages of one space leaves every byte that the
/// other reads from its own frames as it was.
pub proof fn lemma_write_isolated(a: MemorySet, b: MemorySet, m0: PhysMem, m1: PhysMem, va: int, len: int, x: int)
    requires
        a.wf(),
        b.wf(),
        forall|v: usize, w: usize|
            #![trigger a.frames()[v], b.frames()[w]]
            a.frames().contains_key(v) && b.frames().contains_key(w) ==> a.frames()[v] != b.frames()[w],
        forall|i: int| 0 <= i < len ==> #[trigger] a.frames().contains_key(((va + i) / PAGE_SIZE as int) as usize),
        forall|p: int| m1.has(p) && !touches_page(a.pt(), va, va + len, p) ==> #[trigger] m1.page(p) == m0.page(p),
        0 <= va,
        0 <= x,
        b.frames().contains_key((x / PAGE_SIZE as int) as usize),
        m1.has(b.frames()[(x / PAGE_SIZE as int) as usize] as int),
    ensures
        byte_at(b.pt(), m1, x) == byte_at(b.pt(), m0, x),
{
    a.lemma_frames();
    b.lemma_frames();
    let w = (x / PAGE_SIZE as int) as usize;
    let f = b.frames()[w];
    assert(phys_of(b.pt(), x).0 == f);
    if touches_page(a.pt(), va, va + len, f as int) {
        let y = choose|y: int| va <= y < va + len && #[trigger] phys_of(a.pt(), y).0 == f as int;
        let v = ((y / PAGE_SIZE as int)) as usize;
        assert(a.frames().contains_key(((va + (y - va)) / PAGE_SIZE as int) as usize));
        assert(a.frames().contains_key(v));
        assert(phys_of(a.pt(), y).0 == a.frames()[v]);
        assert(a.frames()[v] != b.frames()[w]);
    }
    assert(m1.page(f as int) == m0.page(f as int));
}

} // verus!
