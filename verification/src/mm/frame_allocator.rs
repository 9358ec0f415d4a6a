//! Implementation of the stack frame allocator

use vstd::prelude::*;
use super::address::{PhysAddr, PhysMem, PhysPageNum, MEMORY_END, PAGE_SIZE};

verus! {

/// Manage a frame which has the same lifecycle as the tracker
pub struct FrameTracker {
    pub ppn: PhysPageNum,
}

impl FrameTracker {
    /// Track frame `ppn`, filling it with zeros
    pub fn new(ppn: PhysPageNum, mem: &mut PhysMem) -> (f: Self)
        requires
            old(mem).wf(),
            old(mem).has(ppn.0 as int),
        ensures
            f.ppn == ppn,
            final(mem).wf(),
            final(mem).npages() == old(mem).npages(),
            forall|i: int| 0 <= i < PAGE_SIZE ==> #[trigger] final(mem).page(ppn.0 as int)[i] == 0u8,
            forall|p: int| p != ppn.0 && final(mem).has(p) ==> #[trigger] final(mem).page(p) == old(mem).page(p),
    {
        mem.zero_page(ppn.0);
        Self { ppn }
    }
}

/// An implementation for frame allocator: fresh frames are handed out in
/// increasing order, freed ones are reused last-in first-out
pub struct StackFrameAllocator {
    current: usize,
    end: usize,
    recycled: Vec<usize>,
}

impl StackFrameAllocator {
    /// The next fresh frame.
    pub closed spec fn current(&self) -> int {
        self.current as int
    }

    /// The end of the fresh frames.
    pub closed spec fn end(&self) -> int {
        self.end as int
    }

    /// The freed frames, the last one freed last.
    pub closed spec fn recycled(&self) -> Seq<usize> {
        self.recycled@
    }

    /// Whether frame `ppn` is handed out: below the fresh ones and not freed.
    pub open spec fn is_allocated(&self, ppn: int) -> bool {
        0 <= ppn < self.current() && !self.recycled().contains(ppn as usize)
    }

    /// Number of frames that can still be handed out.
    pub open spec fn available(&self) -> int {
        self.recycled().len() + (self.end() - self.current())
    }

    /// The frames that the next `n` allocations hand out, in order.
    pub open spec fn next_frames(&self, n: nat) -> Seq<int> {
        alloc_order(self.recycled(), self.current(), n)
    }

    /// This allocator is `prev` after one frame was handed out: what follows
    /// is the rest of what `prev` would have handed out.
    pub open spec fn next_frames_from(&self, prev: &Self) -> bool {
        if prev.recycled().len() > 0 {
            &&& self.recycled() == prev.recycled().drop_last()
            &&& self.current() == prev.current()
        } else {
            &&& self.recycled() == prev.recycled()
            &&& self.current() == prev.current() + 1
        }
    }

    /// Freed frames are distinct and below the fresh ones; the fresh ones
    /// do not run past the end.
    pub closed spec fn wf(&self) -> bool {
        &&& self.current <= self.end
        &&& forall|i: int| 0 <= i < self.recycled@.len() ==> #[trigger] self.recycled@[i] < self.current
        &&& self.recycled@.no_duplicates()
    }

    /// Handed-out and freed frames lie below the end of the fresh ones.
    pub proof fn lemma_bounds(&self)
        requires
            self.wf(),
        ensures
            self.current() <= self.end(),
            self.end() <= usize::MAX,
            forall|p: int| #[trigger] self.is_allocated(p) ==> 0 <= p < self.end(),
            forall|i: int| 0 <= i < self.recycled().len() ==> #[trigger] self.recycled()[i] < self.end(),
    {
    }

    /// Number of frames that can still be handed out
    pub fn available_frames(&self) -> (n: u128)
        requires
            self.wf(),
        ensures
            n == self.available(),
    {
        self.recycled.len() as u128 + (self.end - self.current) as u128
    }

    /// An allocator with no frame to hand out
    pub fn new() -> (a: Self)
        ensures
            a.wf(),
            a.current() == 0,
            a.end() == 0,
            a.recycled() == Seq::<usize>::empty(),
    {
        Self { current: 0, end: 0, recycled: Vec::new() }
    }

    /// Hand out the frames `l..r` from now on
    pub fn init(&mut self, l: PhysPageNum, r: PhysPageNum)
        requires
            old(self).wf(),
            l.0 <= r.0,
            old(self).recycled().len() == 0,
        ensures
            final(self).wf(),
            final(self).current() == l.0,
            final(self).end() == r.0,
            final(self).recycled() == old(self).recycled(),
    {
        self.current = l.0;
        self.end = r.0;
    }

    /// Hand a frame out: the last one freed, else the next fresh one
    pub fn alloc_frame(&mut self) -> (r: Option<PhysPageNum>)
        requires
            old(self).wf(),
        ensures
            final(self).wf(),
            final(self).end() == old(self).end(),
            match r {
                Some(p) => {
                    &&& !old(self).is_allocated(p.0 as int)
                    &&& final(self).is_allocated(p.0 as int)
                    &&& if old(self).recycled().len() > 0 {
                        &&& p.0 == old(self).recycled().last()
                        &&& final(self).recycled() == old(self).recycled().drop_last()
                        &&& final(self).current() == old(self).current()
                    } else {
                        &&& p.0 == old(self).current()
                        &&& final(self).current() == old(self).current() + 1
                        &&& final(self).recycled() == old(self).recycled()
                    }
                    &&& forall|q: int| q != p.0 ==> #[trigger] final(self).is_allocated(q) == old(self).is_allocated(q)
                    &&& final(self).available() == old(self).available() - 1
                },
                None => {
                    &&& old(self).available() == 0
                    &&& final(self).current() == old(self).current()
                    &&& final(self).recycled() == old(self).recycled()
                },
            },
    {
        match self.recycled.pop() {
            Some(ppn) => {
                proof {
                    let old_r = old(self).recycled@;
                    assert(old_r == self.recycled@.push(ppn));
                    assert forall|i: int| 0 <= i < self.recycled@.len() implies #[trigger] self.recycled@[i] < self.current by {
                        assert(self.recycled@[i] == old_r[i]);
                    }
                    assert(old_r[old_r.len() - 1] == ppn);
                    assert(!self.recycled@.contains(ppn)) by {
                        if self.recycled@.contains(ppn) {
                            let i = choose|i: int| 0 <= i < self.recycled@.len() && self.recycled@[i] == ppn;
                            assert(old_r[i] == old_r[old_r.len() - 1]);
                        }
                    }
                    assert(old_r.contains(ppn));
                    assert forall|q: int| q != ppn implies #[trigger] self.is_allocated(q) == old(self).is_allocated(q) by {
                        if 0 <= q < self.current && self.recycled@.contains(q as usize) {
                            let i = choose|i: int| 0 <= i < self.recycled@.len() && self.recycled@[i] == q as usize;
                            assert(old_r[i] == q as usize);
                        }
                        if 0 <= q < self.current && old_r.contains(q as usize) {
                            let i = choose|i: int| 0 <= i < old_r.len() && old_r[i] == q as usize;
                            if i < old_r.len() - 1 {
                                assert(self.recycled@[i] == q as usize);
                            }
                        }
                    }
                }
                Some(PhysPageNum(ppn))
            },
            None => {
                if self.current == self.end {
                    None
                } else {
                    self.current = self.current + 1;
                    proof {
                        assert(!old(self).recycled@.contains(old(self).current)) by {
                            if old(self).recycled@.contains(old(self).current) {
                                let i = choose|i: int| 0 <= i < old(self).recycled@.len() && old(self).recycled@[i] == old(self).current;
                            }
                        }
                    }
                    Some(PhysPageNum(self.current - 1))
                }
            },
        }
    }

    /// Take back a frame that was handed out
    pub fn dealloc(&mut self, ppn: PhysPageNum)
        requires
            old(self).wf(),
            old(self).is_allocated(ppn.0 as int),
        ensures
            final(self).wf(),
            final(self).current() == old(self).current(),
            final(self).end() == old(self).end(),
            final(self).recycled() == old(self).recycled().push(ppn.0),
            !final(self).is_allocated(ppn.0 as int),
            forall|q: int| q != ppn.0 ==> #[trigger] final(self).is_allocated(q) == old(self).is_allocated(q),
            final(self).available() == old(self).available() + 1,
    {
        let ppn = ppn.0;
        self.recycled.push(ppn);
        proof {
            let old_r = old(self).recycled@;
            assert(self.recycled@ == old_r.push(ppn));
            assert(self.recycled@[old_r.len() as int] == ppn);
            assert(self.recycled@.no_duplicates()) by {
                assert forall|i: int, j: int| 0 <= i < j < self.recycled@.len() implies self.recycled@[i] != self.recycled@[j] by {
                    if j == old_r.len() {
                        assert(self.recycled@[i] == old_r[i]);
                        assert(!old_r.contains(ppn));
                    } else {
                        assert(old_r[i] != old_r[j]);
                    }
                }
            }
            assert forall|q: int| q != ppn implies #[trigger] self.is_allocated(q) == old(self).is_allocated(q) by {
                if 0 <= q < self.current && self.recycled@.contains(q as usize) {
                    let i = choose|i: int| 0 <= i < self.recycled@.len() && self.recycled@[i] == q as usize;
                    if i < old_r.len() {
                        assert(old_r[i] == q as usize);
                    }
                }
                if 0 <= q < self.current && old_r.contains(q as usize) {
                    let i = choose|i: int| 0 <= i < old_r.len() && old_r[i] == q as usize;
                    assert(self.recycled@[i] == q as usize);
                }
            }
        }
    }
}

/// The frames that `n` successive allocations hand out when the freed
/// frames are `recycled` and the next fresh one is `current`: the freed ones,
/// the last freed first, then fresh ones in increasing order.
pub open spec fn alloc_order(recycled: Seq<usize>, current: int, n: nat) -> Seq<int>
    decreases n,
{
    if n == 0 {
        Seq::empty()
    } else if recycled.len() > 0 {
        seq![recycled.last() as int] + alloc_order(recycled.drop_last(), current, (n - 1) as nat)
    } else {
        seq![current] + alloc_order(recycled, current + 1, (n - 1) as nat)
    }
}

/// `n` successive allocations hand out `n` frames.
pub proof fn lemma_alloc_order_len(recycled: Seq<usize>, current: int, n: nat)
    ensures
        alloc_order(recycled, current, n).len() == n,
    decreases n,
{
    if n > 0 {
        if recycled.len() > 0 {
            lemma_alloc_order_len(recycled.drop_last(), current, (n - 1) as nat);
        } else {
            lemma_alloc_order_len(recycled, current + 1, (n - 1) as nat);
        }
    }
}

/// Initiate the frame allocator with the frames from the first page after
/// the end of the kernel image (`ekernel`) up to [`MEMORY_END`]
pub fn init(allocator: &mut StackFrameAllocator, ekernel: usize)
    requires
        old(allocator).wf(),
        old(allocator).recycled().len() == 0,
        ekernel <= MEMORY_END,
    ensures
        final(allocator).wf(),
        final(allocator).current() == (ekernel + PAGE_SIZE - 1) / PAGE_SIZE as int,
        final(allocator).end() == MEMORY_END / PAGE_SIZE,
        final(allocator).recycled() == old(allocator).recycled(),
{
    let l = PhysAddr(ekernel).as_ppn_by_ceil();
    let r = PhysAddr(MEMORY_END).as_ppn_by_floor();
    proof {
        assert((ekernel + 4095) / 4096 <= 0x8800_0000int / 4096) by (nonlinear_arith)
            requires ekernel <= 0x8800_0000;
    }
    allocator.init(l, r);
}

/// Allocate a frame, zeroed
pub fn frame_alloc(allocator: &mut StackFrameAllocator, mem: &mut PhysMem) -> (f: Option<FrameTracker>)
    requires
        old(allocator).wf(),
        old(mem).wf(),
        old(allocator).end() <= old(mem).npages(),
    ensures
        final(allocator).wf(),
        final(mem).wf(),
        final(mem).npages() == old(mem).npages(),
        final(allocator).end() == old(allocator).end(),
        match f {
            Some(t) => {
                &&& !old(allocator).is_allocated(t.ppn.0 as int)
                &&& final(allocator).is_allocated(t.ppn.0 as int)
                &&& forall|q: int| q != t.ppn.0 ==> #[trigger] final(allocator).is_allocated(q) == old(allocator).is_allocated(q)
                &&& final(allocator).available() == old(allocator).available() - 1
                &&& t.ppn.0 == old(allocator).next_frames(1)[0]
                &&& final(allocator).next_frames_from(old(allocator))
                &&& forall|i: int| 0 <= i < PAGE_SIZE ==> #[trigger] final(mem).page(t.ppn.0 as int)[i] == 0u8
                &&& forall|p: int| p != t.ppn.0 && final(mem).has(p) ==> #[trigger] final(mem).page(p) == old(mem).page(p)
                &&& final(mem).has(t.ppn.0 as int)
            },
            None => {
                &&& old(allocator).available() == 0
                &&& *final(mem) == *old(mem)
            },
        },
{
    match allocator.alloc_frame() {
        Some(ppn) => {
            proof {
                if old(allocator).recycled().len() > 0 {
                    let r = old(allocator).recycled();
                    assert(r.last() == r[r.len() - 1]);
                }
            }
            Some(FrameTracker::new(ppn, mem))
        },
        None => None,
    }
}

/// Deallocate a frame
pub fn frame_dealloc(allocator: &mut StackFrameAllocator, ppn: PhysPageNum)
    requires
        old(allocator).wf(),
        old(allocator).is_allocated(ppn.0 as int),
    ensures
        final(allocator).wf(),
        final(allocator).current() == old(allocator).current(),
        final(allocator).end() == old(allocator).end(),
        final(allocator).recycled() == old(allocator).recycled().push(ppn.0),
        !final(allocator).is_allocated(ppn.0 as int),
        forall|q: int| q != ppn.0 ==> #[trigger] final(allocator).is_allocated(q) == old(allocator).is_allocated(q),
{
    allocator.dealloc(ppn);
}

/// Taking a frame right after giving frame `p` back hands out `p` again and
/// leaves the allocator as it was before `p` was given back.
pub proof fn lemma_dealloc_then_alloc(
    a0: StackFrameAllocator,
    a1: StackFrameAllocator,
    a2: StackFrameAllocator,
    p: PhysPageNum,
    r: Option<PhysPageNum>,
)
    requires
        a0.wf(),
        a1.current() == a0.current(),
        a1.end() == a0.end(),
        a1.recycled() == a0.recycled().push(p.0),
        match r {
            Some(q) => {
                &&& a1.recycled().len() > 0 ==> {
                    &&& q.0 == a1.recycled().last()
                    &&& a2.recycled() == a1.recycled().drop_last()
                    &&& a2.current() == a1.current()
                }
                &&& a2.end() == a1.end()
            },
            None => a1.available() == 0,
        },
    ensures
        r == Some(p),
        a2.recycled() == a0.recycled(),
        a2.current() == a0.current(),
        a2.end() == a0.end(),
        forall|q: int| #[trigger] a2.is_allocated(q) == a0.is_allocated(q),
{
    assert(a1.recycled().len() > 0);
    assert(a0.recycled().push(p.0).drop_last() =~= a0.recycled());
}

} // verus!
