//! Bitmaps of free inodes and free data blocks.

use vstd::prelude::*;
use super::block_cache::{lemma_splice_outside, splice, u64_at, BlockCacheManager};
use super::config::{BLOCK_BITS, BLOCK_SIZE};

verus! {

/// Whether bit `k` of `w` is set.
pub open spec fn word_bit(w: u64, k: int) -> bool {
    (w >> (k as u64)) & 1u64 == 1u64
}

/// Bit `b` of a bitmap whose first block is `start` on `disk`: bit `b % 64`
/// of the little-endian word `(b % BLOCK_BITS) / 64` of block
/// `start + b / BLOCK_BITS`.
pub open spec fn bit_of(disk: Seq<Seq<u8>>, start: int, b: int) -> bool {
    word_bit(u64_at(disk[start + b / BLOCK_BITS as int], ((b % BLOCK_BITS as int) / 64) * 8), b % 64)
}

/// Offset in its block of the word holding bit `b`.
pub open spec fn word_offset(b: int) -> int {
    ((b % BLOCK_BITS as int) / 64) * 8
}

/// A bitmap over consecutive blocks of the disk
pub struct Bitmap {
    start_block_id: usize,
    blocks: usize,
}

impl Bitmap {
    /// First block of the bitmap.
    pub closed spec fn start(&self) -> int {
        self.start_block_id as int
    }

    /// Number of blocks of the bitmap.
    pub closed spec fn len(&self) -> int {
        self.blocks as int
    }

    /// A bitmap starts at a block number and has a number of blocks.
    pub proof fn lemma_nonneg(&self)
        ensures
            self.start() >= 0,
            self.len() >= 0,
    {
    }

    /// Number of bits the bitmap holds.
    pub open spec fn capacity(&self) -> int {
        self.len() * BLOCK_BITS as int
    }

    /// Bit `b` of this bitmap on `disk`.
    pub open spec fn bit(&self, disk: Seq<Seq<u8>>, b: int) -> bool {
        bit_of(disk, self.start(), b)
    }

    /// The bitmap lies on `disk` and its bit count fits a `usize`.
    pub open spec fn fits(&self, disk: Seq<Seq<u8>>) -> bool {
        &&& self.start() + self.len() <= disk.len()
        &&& self.capacity() <= usize::MAX
    }

    /// A bitmap of `blocks` blocks starting at block `start_block_id`
    pub fn new(start_block_id: usize, blocks: usize) -> (b: Self)
        ensures
            b.start() == start_block_id,
            b.len() == blocks,
    {
        Self { start_block_id, blocks }
    }

    /// Allocate the lowest free bit, if any
    pub fn alloc_bit(&self, block_device: &mut BlockCacheManager) -> (r: Option<usize>)
        requires
            old(block_device).wf(),
            self.fits(old(block_device).view()),
        ensures
            final(block_device).wf(),
            final(block_device).view().len() == old(block_device).view().len(),
            match r {
                None => {
                    &&& final(block_device).view() == old(block_device).view()
                    &&& forall|c: int| 0 <= c < self.capacity() ==> #[trigger] self.bit(old(block_device).view(), c)
                },
                Some(b) => {
                    let blk = self.start() + (b as int) / (BLOCK_BITS as int);
                    let off = word_offset(b as int);
                    let w = u64_at(old(block_device).view()[blk], off);
                    &&& b < self.capacity()
                    &&& !self.bit(old(block_device).view(), b as int)
                    &&& forall|c: int| 0 <= c < b ==> #[trigger] self.bit(old(block_device).view(), c)
                    &&& final(block_device).view() == old(block_device).view().update(
                        blk,
                        splice(old(block_device).view()[blk], off, vstd::bytes::spec_u64_to_le_bytes(w | (1u64 << (((b as int) % 64) as u64)))),
                    )
                    &&& self.bit(final(block_device).view(), b as int)
                    &&& forall|c: int| 0 <= c < self.capacity() && c != b ==>
                        #[trigger] self.bit(final(block_device).view(), c) == self.bit(old(block_device).view(), c)
                },
            },
    {
        let ghost disk = block_device.view();
        proof {
            block_device.lemma_wf();
            vstd::bytes::lemma_auto_spec_u64_to_from_le_bytes();
        }
        let mut block_id: usize = 0;
        while block_id < self.blocks
            invariant
                block_device.wf(),
                block_device.view() == disk,
                disk == old(block_device).view(),
                self.fits(disk),
                disk.len() <= usize::MAX,
                forall|b: int| 0 <= b < disk.len() ==> (#[trigger] disk[b]).len() == BLOCK_SIZE,
                block_id <= self.blocks,
                forall|c: int| 0 <= c < block_id * BLOCK_BITS ==> #[trigger] self.bit(disk, c),
            decreases self.blocks - block_id,
        {
            let blk = self.start_block_id + block_id;
            let mut j: usize = 0;
            while j < 64
                invariant
                    block_device.wf(),
                    block_device.view() == disk,
                    disk == old(block_device).view(),
                    self.fits(disk),
                    disk.len() <= usize::MAX,
                    forall|b: int| 0 <= b < disk.len() ==> (#[trigger] disk[b]).len() == BLOCK_SIZE,
                    block_id < self.blocks,
                    blk == self.start() + block_id,
                    j <= 64,
                    forall|c: int| 0 <= c < block_id * BLOCK_BITS + j * 64 ==> #[trigger] self.bit(disk, c),
                decreases 64 - j,
            {
                let w = block_device.read_u64(blk, j * 8);
                if w != u64::MAX {
                    let inner = w.trailing_ones() as usize;
                    proof {
                        vstd::std_specs::bits::axiom_u64_trailing_ones(w);
                    }
                    let nw = w | (1u64 << (inner as u64));
                    block_device.write_u64(blk, j * 8, nw);
                    let b = block_id * BLOCK_BITS + j * 64 + inner;
                    proof {
                        vstd::bytes::lemma_auto_spec_u64_to_from_le_bytes();
                        assert(disk[blk as int].len() == BLOCK_SIZE);
                        assert((b as int) / 4096 == block_id) by (nonlinear_arith)
                            requires b == block_id * 4096 + j * 64 + inner, j < 64, inner < 64;
                        assert(((b as int) % 4096) / 64 == j) by (nonlinear_arith)
                            requires b == block_id * 4096 + j * 64 + inner, j < 64, inner < 64;
                        assert((b as int) % 64 == inner) by (nonlinear_arith)
                            requires b == block_id * 4096 + j * 64 + inner, j < 64, inner < 64;
                        let i64 = inner as u64;
                        assert((w >> i64) & 1u64 == 0u64);
                        assert forall|c: int| 0 <= c < b implies #[trigger] self.bit(disk, c) by {
                            if c >= block_id * BLOCK_BITS + j * 64 {
                                let k = c - (block_id * BLOCK_BITS + j * 64);
                                assert(c / BLOCK_BITS as int == block_id && (c % BLOCK_BITS as int) / 64 == j && c % 64 == k) by (nonlinear_arith)
                                    requires c == block_id * 4096 + j * 64 + k, j < 64, 0 <= k < 64;
                                assert((w >> (k as u64)) & 1u64 == 1u64);
                            }
                        }
                        let nd = block_device.view();
                        assert((nw >> i64) & 1u64 == 1u64) by (bit_vector)
                            requires nw == w | (1u64 << i64), i64 < 64;
                        assert forall|c: int| 0 <= c < self.capacity() && c != b implies
                            #[trigger] self.bit(nd, c) == self.bit(disk, c) by {
                            let cb = c / BLOCK_BITS as int;
                            let cj = (c % BLOCK_BITS as int) / 64;
                            let ck = c % 64;
                            assert(0 <= cj < 64 && 0 <= ck < 64 && 0 <= cb < self.len()) by (nonlinear_arith)
                                requires 0 <= c < self.len() * 4096, cb == c / 4096, cj == (c % 4096) / 64, ck == c % 64;
                            if cb != block_id {
                            } else if cj != j {
                                if cj < j {
                                    lemma_splice_outside(disk[blk as int], j * 8, vstd::bytes::spec_u64_to_le_bytes(nw), cj * 8, 8);
                                } else {
                                    lemma_splice_outside(disk[blk as int], j * 8, vstd::bytes::spec_u64_to_le_bytes(nw), cj * 8, 8);
                                }
                            } else {
                                assert(ck != inner) by (nonlinear_arith)
                                    requires c != b, c == cb * 4096 + cj * 64 + ck, b == block_id * 4096 + j * 64 + inner, cb == block_id, cj == j,
                                    0 <= ck;
                                let k64 = ck as u64;
                                assert((nw >> k64) & 1u64 == (w >> k64) & 1u64) by (bit_vector)
                                    requires nw == w | (1u64 << i64), i64 < 64, k64 < 64, k64 != i64;
                            }
                        }
                    }
                    return Some(b);
                }
                proof {
                    assert forall|c: int| 0 <= c < block_id * BLOCK_BITS + (j + 1) * 64 implies #[trigger] self.bit(disk, c) by {
                        if c >= block_id * BLOCK_BITS + j * 64 {
                            let k = c - (block_id * BLOCK_BITS + j * 64);
                            assert(c / BLOCK_BITS as int == block_id && (c % BLOCK_BITS as int) / 64 == j && c % 64 == k) by (nonlinear_arith)
                                requires c == block_id * 4096 + j * 64 + k, j < 64, 0 <= k < 64;
                            let k64 = k as u64;
                            assert((w >> k64) & 1u64 == 1u64) by (bit_vector)
                                requires w == 0xffff_ffff_ffff_ffffu64, k64 < 64;
                        }
                    }
                }
                j = j + 1;
            }
            block_id = block_id + 1;
        }
        None
    }

    /// Deallocate a bit; it must be set
    pub fn dealloc(&self, block_device: &mut BlockCacheManager, bit: usize)
        requires
            old(block_device).wf(),
            (self.start() + (bit / BLOCK_BITS) as int) < old(block_device).view().len(),
            self.bit(old(block_device).view(), bit as int),
        ensures
            final(block_device).wf(),
            ({
                let blk = self.start() + (bit as int) / (BLOCK_BITS as int);
                let off = word_offset(bit as int);
                let w = u64_at(old(block_device).view()[blk], off);
                final(block_device).view() == old(block_device).view().update(
                    blk,
                    splice(old(block_device).view()[blk], off, vstd::bytes::spec_u64_to_le_bytes(w & !(1u64 << (((bit as int) % 64) as u64)))),
                )
            }),
            !self.bit(final(block_device).view(), bit as int),
            forall|c: int| 0 <= c && c != bit && (self.start() + c / (BLOCK_BITS as int)) < old(block_device).view().len() ==>
                #[trigger] self.bit(final(block_device).view(), c) == self.bit(old(block_device).view(), c),
    {
        let ghost disk = block_device.view();
        proof {
            block_device.lemma_wf();
            vstd::bytes::lemma_auto_spec_u64_to_from_le_bytes();
        }
        let (block_id, bits64_id, inner_id) = decomposition(bit);
        let blk = self.start_block_id + block_id;
        let w = block_device.read_u64(blk, bits64_id * 8);
        let i64 = inner_id as u64;
        let nw = w & !(1u64 << i64);
        block_device.write_u64(blk, bits64_id * 8, nw);
        proof {
            let nd = block_device.view();
            assert((nw >> i64) & 1u64 != 1u64) by (bit_vector)
                requires nw == w & !(1u64 << i64), i64 < 64;
            assert forall|c: int| 0 <= c && c != bit && self.start() + c / (BLOCK_BITS as int) < disk.len() implies
                #[trigger] self.bit(nd, c) == self.bit(disk, c) by {
                let cb = c / BLOCK_BITS as int;
                let cj = (c % BLOCK_BITS as int) / 64;
                let ck = c % 64;
                assert(0 <= cj < 64 && 0 <= ck < 64 && c == cb * 4096 + cj * 64 + ck) by (nonlinear_arith)
                    requires 0 <= c, cb == c / 4096, cj == (c % 4096) / 64, ck == c % 64;
                if cb != block_id {
                } else if cj != bits64_id {
                    lemma_splice_outside(disk[blk as int], bits64_id * 8, vstd::bytes::spec_u64_to_le_bytes(nw), cj * 8, 8);
                } else {
                    assert(ck != inner_id);
                    let k64 = ck as u64;
                    assert((nw >> k64) & 1u64 == (w >> k64) & 1u64) by (bit_vector)
                        requires nw == w & !(1u64 << i64), i64 < 64, k64 < 64, k64 != i64;
                }
            }
        }
    }

    /// Get the max number of allocatable blocks
    pub fn maximum(&self) -> (n: usize)
        requires
            self.capacity() <= usize::MAX,
        ensures
            n == self.capacity(),
    {
        self.blocks * BLOCK_BITS
    }
}

/// Decompose bits into (`block_id`, `bits64_id`, `inner_id`)
pub fn decomposition(bit: usize) -> (r: (usize, usize, usize))
    ensures
        r.0 == bit / BLOCK_BITS,
        r.1 == (bit % BLOCK_BITS) / 64,
        r.2 == (bit % BLOCK_BITS) % 64,
        r.2 == bit % 64,
        r.1 < 64,
        r.0 * BLOCK_BITS + r.1 * 64 + r.2 == bit,
{
    let block_id = bit / BLOCK_BITS;
    let bit_in_block = bit % BLOCK_BITS;
    let bit64_id = bit_in_block / 64;
    let inner_id = bit_in_block % 64;
    proof {
        assert(bit_in_block % 64 == bit % 64) by (nonlinear_arith)
            requires bit_in_block == bit % 4096;
    }
    (block_id, bit64_id, inner_id)
}

/// Freeing a bit right after allocating it gives back the disk as it was:
/// allocation sets bit `b`, which was clear, and freeing clears it again.
pub proof fn lemma_alloc_then_dealloc(bm: Bitmap, v0: Seq<Seq<u8>>, v1: Seq<Seq<u8>>, v2: Seq<Seq<u8>>, b: usize)
    requires
        bm.fits(v0),
        forall|i: int| 0 <= i < v0.len() ==> #[trigger] v0[i].len() == BLOCK_SIZE,
        b < bm.capacity(),
        !bm.bit(v0, b as int),
        ({
            let blk = bm.start() + (b as int) / (BLOCK_BITS as int);
            let off = word_offset(b as int);
            let w = u64_at(v0[blk], off);
            v1 == v0.update(blk, splice(v0[blk], off, vstd::bytes::spec_u64_to_le_bytes(w | (1u64 << (((b as int) % 64) as u64)))))
        }),
        ({
            let blk = bm.start() + (b as int) / (BLOCK_BITS as int);
            let off = word_offset(b as int);
            let w = u64_at(v1[blk], off);
            v2 == v1.update(blk, splice(v1[blk], off, vstd::bytes::spec_u64_to_le_bytes(w & !(1u64 << (((b as int) % 64) as u64)))))
        }),
    ensures
        v2 == v0,
{
    let blk = bm.start() + (b as int) / (BLOCK_BITS as int);
    let off = word_offset(b as int);
    let s0 = v0[blk];
    let w = u64_at(s0, off);
    let k = ((b as int) % 64) as u64;
    let m = 1u64 << k;
    assert(bm.start() <= blk < bm.start() + bm.len()) by (nonlinear_arith)
        requires
            blk == bm.start() + (b as int) / 4096,
            0 <= b < bm.len() * 4096,
    ;
    assert(0 <= off && off + 8 <= 512) by (nonlinear_arith)
        requires
            off == ((b as int % 4096) / 64) * 8,
            0 <= b,
    ;
    assert(k < 64);
    vstd::bytes::lemma_auto_spec_u64_to_from_le_bytes();
    // the bit was clear
    assert(!word_bit(w, (b as int) % 64));
    assert((w >> k) & 1u64 != 1u64);
    assert(w & m == 0) by (bit_vector)
        requires
            m == 1u64 << k,
            k < 64,
            (w >> k) & 1u64 != 1u64,
    ;
    // setting it
    let x = w | m;
    let s1 = splice(s0, off, vstd::bytes::spec_u64_to_le_bytes(x));
    assert(v1[blk] == s1);
    assert(s1.subrange(off, off + 8) =~= vstd::bytes::spec_u64_to_le_bytes(x));
    assert(u64_at(v1[blk], off) == x);
    // clearing it again
    assert(x & !m == w) by (bit_vector)
        requires
            x == w | m,
            w & m == 0,
    ;
    assert(s0.subrange(off, off + 8).len() == 8);
    assert(vstd::bytes::spec_u64_to_le_bytes(w) == s0.subrange(off, off + 8));
    let s2 = splice(s1, off, vstd::bytes::spec_u64_to_le_bytes(w));
    assert(s2 =~= s0);
    assert(v2 =~= v0);
}

} // verus!
