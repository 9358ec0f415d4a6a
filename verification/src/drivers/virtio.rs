//! The memory services that the virtio drivers are given: buffers of
//! contiguous frames for their queues, and address translation.

use vstd::prelude::*;
use crate::mm::address::{PhysAddr, PhysMem, PhysPageNum, VirtAddr, PAGE_SIZE};
use crate::mm::frame_allocator::{alloc_order, frame_alloc, frame_dealloc, lemma_alloc_order_len, FrameTracker, StackFrameAllocator};
use crate::mm::memory_set::MemorySet;

verus! {

/// The memory services for the virtio drivers
pub struct VirtioHal;

/// How many frames a DMA buffer of `pages` pages takes: at least one.
pub open spec fn dma_frames(pages: usize) -> nat {
    if pages == 0 { 1 } else { pages as nat }
}

/// Whether the frames `s` follow each other.
pub open spec fn contiguous(s: Seq<int>) -> bool {
    forall|i: int| 0 <= i < s.len() ==> #[trigger] s[i] == s[0] + i
}

impl VirtioHal {
    /// Take the frames of a DMA buffer of `pages` pages (at least one frame)
    /// from `allocator`, zeroed, and keep them in `queue_frames`; the
    /// physical address of the first. The frames that `allocator` hands out
    /// next must be there and follow each other.
    pub fn dma_alloc(
        pages: usize,
        queue_frames: &mut Vec<FrameTracker>,
        allocator: &mut StackFrameAllocator,
        mem: &mut PhysMem,
    ) -> (pa: usize)
        requires
            old(allocator).wf(),
            old(mem).wf(),
            old(allocator).end() <= old(mem).npages(),
            old(allocator).end() * PAGE_SIZE <= usize::MAX,
            dma_frames(pages) <= old(allocator).available(),
            contiguous(old(allocator).next_frames(dma_frames(pages))),
        ensures
            ({
                let frames = old(allocator).next_frames(dma_frames(pages));
                let n0 = old(queue_frames)@.len();
                &&& frames.len() == dma_frames(pages)
                &&& pa == frames[0] * PAGE_SIZE
                &&& final(queue_frames)@.len() == n0 + frames.len()
                &&& final(queue_frames)@.subrange(0, n0 as int) == old(queue_frames)@
                &&& forall|k: int| 0 <= k < frames.len() ==> #[trigger] final(queue_frames)@[n0 + k].ppn.0 == frames[k]
                &&& forall|k: int| 0 <= k < frames.len() ==> !old(allocator).is_allocated(#[trigger] frames[k])
                    && final(allocator).is_allocated(frames[k])
                &&& forall|q: int| !frames.contains(q) ==> #[trigger] final(allocator).is_allocated(q) == old(allocator).is_allocated(q)
                &&& final(allocator).available() == old(allocator).available() - frames.len()
                &&& forall|k: int, j: int| 0 <= k < frames.len() && 0 <= j < PAGE_SIZE
                    ==> #[trigger] final(mem).page(frames[k])[j] == 0u8
                &&& forall|p: int| !frames.contains(p) && final(mem).has(p) ==> #[trigger] final(mem).page(p) == old(mem).page(p)
            }),
            final(allocator).wf(),
            final(allocator).end() == old(allocator).end(),
            final(mem).wf(),
            final(mem).npages() == old(mem).npages(),
    {
        let n: usize = if pages == 0 { 1 } else { pages };
        let ghost frames = old(allocator).next_frames(n as nat);
        let ghost n0 = old(queue_frames)@.len();
        proof {
            lemma_alloc_order_len(old(allocator).recycled(), old(allocator).current(), n as nat);
        }
        let mut base: usize = 0;
        let mut i: usize = 0;
        while i < n
            invariant
                0 <= i <= n,
                n == dma_frames(pages),
                frames == old(allocator).next_frames(n as nat),
                frames.len() == n,
                contiguous(frames),
                allocator.wf(),
                allocator.end() == old(allocator).end(),
                old(allocator).wf(),
                old(allocator).end() * PAGE_SIZE <= usize::MAX,
                allocator.next_frames((n - i) as nat) == frames.skip(i as int),
                allocator.available() == old(allocator).available() - i,
                old(allocator).available() >= n,
                i > 0 ==> base == frames[0],
                mem.wf(),
                mem.npages() == old(mem).npages(),
                allocator.end() <= mem.npages(),
                queue_frames@.len() == n0 + i,
                queue_frames@.subrange(0, n0 as int) == old(queue_frames)@,
                forall|k: int| 0 <= k < i ==> #[trigger] queue_frames@[n0 + k].ppn.0 == frames[k],
                forall|k: int| 0 <= k < i ==> allocator.is_allocated(#[trigger] frames[k]),
                forall|k: int| 0 <= k < i ==> !old(allocator).is_allocated(#[trigger] frames[k]),
                forall|q: int| !frames.take(i as int).contains(q) ==> #[trigger] allocator.is_allocated(q) == old(allocator).is_allocated(q),
                forall|k: int, j: int| 0 <= k < i && 0 <= j < PAGE_SIZE ==> #[trigger] mem.page(frames[k])[j] == 0u8,
                forall|p: int| !frames.take(i as int).contains(p) && mem.has(p) ==> #[trigger] mem.page(p) == old(mem).page(p),
            decreases n - i,
        {
            let ghost a_prev = *allocator;
            let ghost m_prev = *mem;
            proof {
                lemma_alloc_order_len(allocator.recycled(), allocator.current(), (n - i) as nat);
                assert(frames.skip(i as int)[0] == frames[i as int]);
            }
            let frame = frame_alloc(allocator, mem).unwrap();
            let ghost f = frame.ppn.0 as int;
            proof {
                // the frame handed out is the next one, and the rest follow
                let rest = alloc_order(allocator.recycled(), allocator.current(), (n - i - 1) as nat);
                assert(a_prev.next_frames((n - i) as nat) == seq![f] + rest);
                assert(allocator.next_frames((n - i - 1) as nat) == rest);
                assert(f == frames[i as int]);
                assert(rest =~= frames.skip(i + 1)) by {
                    lemma_alloc_order_len(allocator.recycled(), allocator.current(), (n - i - 1) as nat);
                    assert forall|k: int| 0 <= k < rest.len() implies rest[k] == frames.skip(i + 1)[k] by {
                        assert(frames.skip(i as int)[k + 1] == rest[k]);
                    }
                }
                assert(frames.take(i + 1) =~= frames.take(i as int).push(f));
                // the frames so far differ from the new one
                assert forall|k: int| 0 <= k < i implies frames[k] != f by {
                    assert(frames[k] == frames[0] + k);
                    assert(frames[i as int] == frames[0] + i);
                }
            }
            proof {
                assert(!frames.take(i as int).contains(f));
                assert(frames.take(i + 1)[i as int] == f);
                assert(frames.take(i + 1).contains(f));
                assert forall|q: int| !frames.take(i + 1).contains(q) implies #[trigger] allocator.is_allocated(q)
                    == old(allocator).is_allocated(q) by {
                    assert(q != f);
                    assert(!frames.take(i as int).contains(q));
                }
                assert forall|p: int| !frames.take(i + 1).contains(p) && mem.has(p) implies #[trigger] mem.page(p)
                    == old(mem).page(p) by {
                    assert(p != f);
                    assert(!frames.take(i as int).contains(p));
                }
                assert forall|k: int| 0 <= k < i + 1 implies !old(allocator).is_allocated(#[trigger] frames[k]) by {
                    if k == i {
                        assert(!a_prev.is_allocated(f));
                    }
                }
            }
            if i == 0 {
                base = frame.ppn.0;
            }
            queue_frames.push(frame);
            proof {
                assert(queue_frames@.subrange(0, n0 as int) =~= old(queue_frames)@) by {
                    assert forall|k: int| 0 <= k < n0 implies queue_frames@[k] == old(queue_frames)@[k] by {
                        assert(queue_frames@[k] == queue_frames@.drop_last()[k]);
                    }
                }
                assert forall|k: int| 0 <= k < i + 1 implies #[trigger] queue_frames@[n0 + k].ppn.0 == frames[k] by {
                    if k < i {
                        assert(queue_frames@[n0 + k] == queue_frames@.drop_last()[n0 + k]);
                    }
                }
                assert forall|k: int| 0 <= k < i + 1 implies allocator.is_allocated(#[trigger] frames[k]) by {
                    if k < i {
                        assert(frames[k] != f);
                    }
                }
                assert forall|k: int, j: int| 0 <= k < i + 1 && 0 <= j < PAGE_SIZE implies #[trigger] mem.page(frames[k])[j] == 0u8 by {
                    if k < i {
                        assert(frames[k] != f);
                        assert(!frames.take(i as int).contains(f));
                        assert(m_prev.has(frames[k])) by {
                            assert(a_prev.is_allocated(frames[k]));
                            a_prev.lemma_bounds();
                        }
                    }
                }
            }
            i = i + 1;
        }
        proof {
            assert(frames.take(n as int) =~= frames);
            allocator.lemma_bounds();
            assert(allocator.is_allocated(frames[0]));
        }
        let first = PhysPageNum(base);
        first.addr().0
    }

    /// Give the `pages` frames of the DMA buffer at physical address `pa`
    /// back to `allocator`, the first one first; 0. Each of them must be
    /// handed out.
    pub fn dma_dealloc(pa: usize, pages: usize, allocator: &mut StackFrameAllocator) -> (r: i32)
        requires
            old(allocator).wf(),
            forall|k: int| 0 <= k < pages ==> #[trigger] old(allocator).is_allocated(pa / PAGE_SIZE + k),
        ensures
            r == 0,
            final(allocator).wf(),
            final(allocator).current() == old(allocator).current(),
            final(allocator).end() == old(allocator).end(),
            final(allocator).recycled() == old(allocator).recycled()
                + Seq::new(pages as nat, |k: int| (pa / PAGE_SIZE + k) as usize),
            forall|k: int| 0 <= k < pages ==> !#[trigger] final(allocator).is_allocated(pa / PAGE_SIZE + k),
    {
        let mut ppn_base = PhysAddr(pa).as_ppn_by_floor();
        let ghost base = pa / PAGE_SIZE;
        let mut i: usize = 0;
        while i < pages
            invariant
                0 <= i <= pages,
                ppn_base.0 == base + i,
                base == pa / PAGE_SIZE,
                allocator.wf(),
                allocator.current() == old(allocator).current(),
                allocator.end() == old(allocator).end(),
                allocator.recycled() == old(allocator).recycled() + Seq::new(i as nat, |k: int| (base + k) as usize),
                forall|k: int| i <= k < pages ==> #[trigger] allocator.is_allocated(base + k),
            decreases pages - i,
        {
            let ghost a_prev = *allocator;
            proof {
                assert(allocator.is_allocated(base + i));
            }
            frame_dealloc(allocator, ppn_base);
            proof {
                assert(allocator.recycled() =~= old(allocator).recycled() + Seq::new((i + 1) as nat, |k: int| (base + k) as usize));
                assert forall|k: int| i + 1 <= k < pages implies #[trigger] allocator.is_allocated(base + k) by {
                    assert(a_prev.is_allocated(base + k));
                }
                a_prev.lemma_bounds();
            }
            ppn_base.step();
            i = i + 1;
        }
        proof {
            assert forall|k: int| 0 <= k < pages implies !#[trigger] allocator.is_allocated(pa / PAGE_SIZE + k) by {
                let s = Seq::new(pages as nat, |k: int| (base + k) as usize);
                assert(allocator.recycled()[old(allocator).recycled().len() + k] == s[k]);
                assert(s[k] == (base + k) as usize);
                assert(allocator.recycled().contains((base + k) as usize));
            }
        }
        0
    }

    /// The virtual address of physical address `addr`: the same, the kernel
    /// mapping physical memory one to one
    pub fn phys_to_virt(addr: usize) -> (r: usize)
        ensures
            r == addr,
    {
        addr
    }

    /// The physical address of kernel virtual address `vaddr`, translated by
    /// the kernel's address space; its page must be mapped.
    pub fn virt_to_phys(kernel_space: &MemorySet, vaddr: usize) -> (r: usize)
        requires
            kernel_space.mappings().contains_key((vaddr / PAGE_SIZE) as usize),
            kernel_space.mappings()[(vaddr / PAGE_SIZE) as usize].ppn.0 < usize::MAX / PAGE_SIZE,
        ensures
            r == kernel_space.mappings()[(vaddr / PAGE_SIZE) as usize].ppn.0 * PAGE_SIZE + vaddr % PAGE_SIZE,
    {
        kernel_space.page_table().translate_va(VirtAddr(vaddr)).unwrap().0
    }
}

} // verus!
