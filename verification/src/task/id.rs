//! Allocation of recyclable ids.

use vstd::prelude::*;

verus! {

/// Hands out ids: the last one given back first, else the next fresh one
pub struct RecycleAllocator {
    current: usize,
    recycled: Vec<usize>,
}

impl RecycleAllocator {
    /// The next fresh id.
    pub closed spec fn current(&self) -> int {
        self.current as int
    }

    /// The ids given back, the last one given back last.
    pub closed spec fn recycled(&self) -> Seq<usize> {
        self.recycled@
    }

    /// Whether `id` is handed out.
    pub open spec fn in_use(&self, id: int) -> bool {
        0 <= id < self.current() && !self.recycled().contains(id as usize)
    }

    /// The ids given back are distinct and were handed out before.
    pub closed spec fn wf(&self) -> bool {
        &&& forall|i: int| 0 <= i < self.recycled@.len() ==> #[trigger] self.recycled@[i] < self.current
        &&& self.recycled@.no_duplicates()
    }

    /// An allocator that has handed out nothing
    pub fn new() -> (a: Self)
        ensures
            a.wf(),
            a.current() == 0,
            a.recycled() == Seq::<usize>::empty(),
    {
        RecycleAllocator { current: 0, recycled: Vec::new() }
    }

    /// The id [`Self::alloc_id`] hands out next: the one given back last,
    /// or else the lowest never handed out.
    pub open spec fn next_id(&self) -> int {
        if self.recycled().len() > 0 { self.recycled().last() as int } else { self.current() }
    }

    /// Hand out an id
    pub fn alloc_id(&mut self) -> (id: usize)
        requires
            old(self).wf(),
            old(self).current() < usize::MAX,
        ensures
            final(self).wf(),
            !old(self).in_use(id as int),
            final(self).in_use(id as int),
            forall|q: int| q != id ==> #[trigger] final(self).in_use(q) == old(self).in_use(q),
            old(self).recycled().len() > 0 ==> {
                &&& id == old(self).recycled().last()
                &&& final(self).recycled() == old(self).recycled().drop_last()
                &&& final(self).current() == old(self).current()
            },
            old(self).recycled().len() == 0 ==> {
                &&& id == old(self).current()
                &&& final(self).current() == old(self).current() + 1
                &&& final(self).recycled() == old(self).recycled()
            },
    {
        match self.recycled.pop() {
            Some(id) => {
                proof {
                    let old_r = old(self).recycled@;
                    assert(old_r == self.recycled@.push(id));
                    assert forall|i: int| 0 <= i < self.recycled@.len() implies #[trigger] self.recycled@[i] < self.current by {
                        assert(self.recycled@[i] == old_r[i]);
                    }
                    assert(old_r[old_r.len() - 1] == id);
                    assert(!self.recycled@.contains(id)) by {
                        if self.recycled@.contains(id) {
                            let i = choose|i: int| 0 <= i < self.recycled@.len() && self.recycled@[i] == id;
                            assert(old_r[i] == old_r[old_r.len() - 1]);
                        }
                    }
                    assert(old_r.contains(id));
                    assert forall|q: int| q != id implies #[trigger] self.in_use(q) == old(self).in_use(q) by {
                        if 0 <= q < self.current && self.recycled@.contains(q as usize) {
                            let i = choose|i: int| 0 <= i < self.recycled@.len() && self.recycled@[i] == q as usize;
                            assert(old_r[i] == q as usize);
                        }
                        if 0 <= q < self.current && old_r.contains(q as usize) {
                            let i = choose|i: int| 0 <= i < old_r.len() && old_r[i] == q as usize;
                            if i < old_r.len() - 1 {
                                assert(self.recycled@[i] == q as usize);
                            }
                        }
                    }
                }
                id
            },
            None => {
                self.current = self.current + 1;
                proof {
                    assert(!old(self).recycled@.contains(old(self).current)) by {
                        if old(self).recycled@.contains(old(self).current) {
                            let i = choose|i: int| 0 <= i < old(self).recycled@.len() && old(self).recycled@[i] == old(self).current;
                        }
                    }
                }
                self.current - 1
            },
        }
    }

    /// Take back an id that is handed out
    pub fn dealloc(&mut self, id: usize)
        requires
            old(self).wf(),
            old(self).in_use(id as int),
        ensures
            final(self).wf(),
            final(self).current() == old(self).current(),
            final(self).recycled() == old(self).recycled().push(id),
            !final(self).in_use(id as int),
            forall|q: int| q != id ==> #[trigger] final(self).in_use(q) == old(self).in_use(q),
    {
        self.recycled.push(id);
        proof {
            let old_r = old(self).recycled@;
            assert(self.recycled@ == old_r.push(id));
            assert(self.recycled@[old_r.len() as int] == id);
            assert(self.recycled@.no_duplicates()) by {
                assert forall|i: int, j: int| 0 <= i < j < self.recycled@.len() implies self.recycled@[i] != self.recycled@[j] by {
                    if j == old_r.len() {
                        assert(self.recycled@[i] == old_r[i]);
                        assert(!old_r.contains(id));
                    } else {
                        assert(old_r[i] != old_r[j]);
                    }
                }
            }
            assert forall|q: int| q != id implies #[trigger] self.in_use(q) == old(self).in_use(q) by {
                if 0 <= q < self.current && self.recycled@.contains(q as usize) {
                    let i = choose|i: int| 0 <= i < self.recycled@.len() && self.recycled@[i] == q as usize;
                    if i < old_r.len() {
                        assert(old_r[i] == q as usize);
                    }
                }
                if 0 <= q < self.current && old_r.contains(q as usize) {
                    let i = choose|i: int| 0 <= i < old_r.len() && old_r[i] == q as usize;
                    assert(self.recycled@[i] == q as usize);
                }
            }
        }
    }
}

/// Handing out an id right after taking back id `id` hands out `id` again
/// and leaves the allocator as it was before `id` was taken back.
pub proof fn lemma_dealloc_then_alloc_id(a0: RecycleAllocator, a1: RecycleAllocator, a2: RecycleAllocator, id: usize, r: usize)
    requires
        a1.current() == a0.current(),
        a1.recycled() == a0.recycled().push(id),
        a1.recycled().len() > 0 ==> {
            &&& r == a1.recycled().last()
            &&& a2.recycled() == a1.recycled().drop_last()
            &&& a2.current() == a1.current()
        },
    ensures
        r == id,
        a2.recycled() == a0.recycled(),
        a2.current() == a0.current(),
        forall|q: int| #[trigger] a2.in_use(q) == a0.in_use(q),
{
    assert(a1.recycled().len() > 0);
    assert(a0.recycled().push(id).drop_last() =~= a0.recycled());
}

} // verus!
