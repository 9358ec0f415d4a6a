//! Growing a disk inode: the blocks it takes, in the order it takes them.

use vstd::prelude::*;
use super::block_cache::{lemma_splice_outside, splice, u32_at, BlockCacheManager};
use super::config::{BLOCK_SIZE, DIRECT_BOUND, DIRECT_COUNT, INDIRECT1_BOUND, INDIRECT1_COUNT, INDIRECT2_COUNT};
use super::layout::{data_blocks, entries, level2, min_int, total_blocks, DiskInode};

verus! {

/// Number of blocks (data and index) a file of `c` data blocks owns.
pub open spec fn owned_len(c: int) -> int {
    c + (if c > DIRECT_BOUND { 1int } else { 0int }) + (if c > INDIRECT1_BOUND {
        1 + (c - INDIRECT1_BOUND + 127) / 128
    } else {
        0int
    })
}

/// Number of first-level blocks taken while the second level grows from
/// `lo` to `hi` data blocks: the multiples of 128 in `lo..hi`.
pub open spec fn l1_taken(lo: int, hi: int) -> int {
    (hi + 127) / 128 - (lo + 127) / 128
}

impl DiskInode {
    /// The blocks taken when the inode grows from `c` to `c + 1` data
    /// blocks: the index blocks first, then the data block.
    pub open spec fn extra(&self, d: Seq<Seq<u8>>, c: int) -> Seq<u32> {
        if c < DIRECT_BOUND {
            seq![self.direct@[c]]
        } else if c == DIRECT_BOUND {
            seq![self.indirect1, u32_at(d[self.indirect1 as int], 0)]
        } else if c < INDIRECT1_BOUND {
            seq![u32_at(d[self.indirect1 as int], (c - DIRECT_BOUND) * 4)]
        } else {
            let m = c - INDIRECT1_BOUND;
            let l1 = u32_at(d[self.indirect2 as int], (m / 128) * 4);
            let e = u32_at(d[l1 as int], (m % 128) * 4);
            if c == INDIRECT1_BOUND {
                seq![self.indirect2, l1, e]
            } else if m % 128 == 0 {
                seq![l1, e]
            } else {
                seq![e]
            }
        }
    }

    /// Every block the inode owns with `c` data blocks, in the order they
    /// are taken as it grows.
    pub open spec fn grow(&self, d: Seq<Seq<u8>>, c: int) -> Seq<u32>
        decreases c,
    {
        if c <= 0 {
            Seq::empty()
        } else {
            self.grow(d, c - 1) + self.extra(d, c - 1)
        }
    }

    /// First-level index block `j` of the second level.
    pub open spec fn l1_block(&self, d: Seq<Seq<u8>>, j: int) -> u32 {
        u32_at(d[self.indirect2 as int], j * 4)
    }
}

/// What a list holds, any longer version of it holds too.
proof fn lemma_contains_extended(g: Seq<u32>, nb: Seq<u32>, k: int, v: u32)
    requires
        0 <= k <= nb.len(),
        (g + nb.subrange(0, k)).contains(v),
    ensures
        (g + nb).contains(v),
{
    let l = g + nb.subrange(0, k);
    let i = choose|i: int| 0 <= i < l.len() && l[i] == v;
    assert((g + nb)[i] == v);
}

/// More data blocks own more blocks.
pub proof fn lemma_owned_len_mono(a: int, b: int)
    requires
        0 <= a <= b,
    ensures
        owned_len(a) <= owned_len(b),
        a < b ==> owned_len(a) < owned_len(b),
{
    if a > INDIRECT1_BOUND {
        assert((a - 155 + 127) / 128 <= (b - 155 + 127) / 128) by (nonlinear_arith)
            requires a <= b;
    } else if b > INDIRECT1_BOUND {
        assert((b - 155 + 127) / 128 >= 0) by (nonlinear_arith)
            requires b > 155;
    }
}

/// The list of owned blocks has the length `owned_len` gives.
pub proof fn lemma_grow_len(s: DiskInode, d: Seq<Seq<u8>>, c: int)
    requires
        0 <= c,
    ensures
        s.grow(d, c).len() == owned_len(c),
    decreases c,
{
    if c > 0 {
        lemma_grow_len(s, d, c - 1);
        let x = c - 1;
        if x > INDIRECT1_BOUND {
            let m = x - INDIRECT1_BOUND;
            if m % 128 == 0 {
                assert((x + 1 - 155 + 127) / 128 == (x - 155 + 127) / 128 + 1) by (nonlinear_arith)
                    requires m == x - 155, m % 128 == 0, m > 0;
            } else {
                assert((x + 1 - 155 + 127) / 128 == (x - 155 + 127) / 128) by (nonlinear_arith)
                    requires m == x - 155, m % 128 != 0, m > 0;
            }
        }
    }
}

/// A shorter list of owned blocks is a prefix of a longer one.
pub proof fn lemma_grow_prefix(s: DiskInode, d: Seq<Seq<u8>>, c1: int, c2: int)
    requires
        0 <= c1 <= c2,
    ensures
        s.grow(d, c2).subrange(0, owned_len(c1)) == s.grow(d, c1),
    decreases c2,
{
    lemma_grow_len(s, d, c1);
    lemma_grow_len(s, d, c2);
    if c1 < c2 {
        lemma_grow_prefix(s, d, c1, c2 - 1);
        lemma_grow_len(s, d, c2 - 1);
        assert(s.grow(d, c2).subrange(0, owned_len(c1)) =~= s.grow(d, c2 - 1).subrange(0, owned_len(c1)));
    } else {
        assert(s.grow(d, c2).subrange(0, owned_len(c1)) =~= s.grow(d, c1));
    }
}

/// Where the index blocks sit in the list of owned blocks.
pub proof fn lemma_grow_index_positions(s: DiskInode, d: Seq<Seq<u8>>, c: int)
    requires
        0 <= c,
    ensures
        c > DIRECT_BOUND ==> s.grow(d, c)[27] == s.indirect1,
        c > INDIRECT1_BOUND ==> s.grow(d, c)[156] == s.indirect2,
        forall|j: int| 0 <= j && INDIRECT1_BOUND + j * 128 < c ==> #[trigger] s.grow(d, c)[157 + 129 * j] == s.l1_block(d, j),
{
    lemma_grow_len(s, d, c);
    if c > DIRECT_BOUND {
        lemma_grow_prefix(s, d, 28, c);
        lemma_grow_len(s, d, 27);
        assert(s.grow(d, 28)[27] == s.indirect1);
    }
    if c > INDIRECT1_BOUND {
        lemma_grow_prefix(s, d, 156, c);
        lemma_grow_len(s, d, 155);
        assert(s.grow(d, 156)[156] == s.indirect2);
    }
    assert forall|j: int| 0 <= j && INDIRECT1_BOUND + j * 128 < c implies #[trigger] s.grow(d, c)[157 + 129 * j]
        == s.l1_block(d, j) by {
        let c1 = INDIRECT1_BOUND + j * 128 + 1;
        lemma_grow_prefix(s, d, c1, c);
        lemma_grow_len(s, d, c1 - 1);
        lemma_grow_len(s, d, c1);
        assert(owned_len(c1 - 1) == 157 + 129 * j - (if j == 0 { 1int } else { 0int })) by (nonlinear_arith)
            requires c1 == 155 + j * 128 + 1, j >= 0;
        assert(((c1 - 1 - 155) / 128) == j && (c1 - 1 - 155) % 128 == 0) by (nonlinear_arith)
            requires c1 == 155 + j * 128 + 1, j >= 0;
        assert(157 + 129 * j < owned_len(c1)) by (nonlinear_arith)
            requires c1 == 155 + j * 128 + 1, j >= 0, owned_len(c1) == c1 + 1 + 1 + (c1 - 155 + 127) / 128;
        assert(s.grow(d, c1)[157 + 129 * j] == s.l1_block(d, j));
    }
}

/// Two disks on which every growth step takes the same blocks give the
/// same list of owned blocks.
pub proof fn lemma_grow_frame(s1: DiskInode, s2: DiskInode, d1: Seq<Seq<u8>>, d2: Seq<Seq<u8>>, c: int)
    requires
        forall|x: int| 0 <= x < c ==> #[trigger] s1.extra(d1, x) == s2.extra(d2, x),
    ensures
        s1.grow(d1, c) == s2.grow(d2, c),
    decreases c,
{
    if c > 0 {
        lemma_grow_frame(s1, s2, d1, d2, c - 1);
    }
}

/// `u32_at` away from a 4-byte write is unchanged.
proof fn lemma_u32_frame(blk: Seq<u8>, o: int, bytes: Seq<u8>, o2: int)
    requires
        blk.len() == BLOCK_SIZE,
        bytes.len() == 4,
        0 <= o,
        o + 4 <= BLOCK_SIZE,
        0 <= o2,
        o2 + 4 <= BLOCK_SIZE,
        o2 + 4 <= o || o + 4 <= o2,
    ensures
        u32_at(splice(blk, o, bytes), o2) == u32_at(blk, o2),
{
    lemma_splice_outside(blk, o, bytes, o2, 4);
}

/// Writing entry `c - 27` of the first-level index block leaves the blocks
/// of the earlier growth steps alone.
proof fn lemma_frame_indirect1(s: DiskInode, d: Seq<Seq<u8>>, dn: Seq<Seq<u8>>, c: int, bytes: Seq<u8>)
    requires
        DIRECT_BOUND <= c < INDIRECT1_BOUND,
        s.indirect1 < d.len(),
        d[s.indirect1 as int].len() == BLOCK_SIZE,
        bytes.len() == 4,
        dn == d.update(s.indirect1 as int, splice(d[s.indirect1 as int], (c - DIRECT_BOUND) * 4, bytes)),
    ensures
        forall|x: int| 0 <= x < c ==> #[trigger] s.extra(dn, x) == s.extra(d, x),
{
    assert forall|x: int| 0 <= x < c implies #[trigger] s.extra(dn, x) == s.extra(d, x) by {
        if x >= DIRECT_BOUND {
            lemma_u32_frame(d[s.indirect1 as int], (c - DIRECT_BOUND) * 4, bytes, (x - DIRECT_BOUND) * 4);
        }
    }
}

/// Writing pointer `j` of the second-level index block, at the start of
/// group `j`, leaves the blocks of the earlier growth steps alone.
proof fn lemma_frame_indirect2(s: DiskInode, d: Seq<Seq<u8>>, dn: Seq<Seq<u8>>, j: int, bytes: Seq<u8>)
    requires
        0 <= j < 128,
        s.indirect2 < d.len(),
        s.indirect2 != s.indirect1,
        s.indirect1 < d.len(),
        d[s.indirect2 as int].len() == BLOCK_SIZE,
        bytes.len() == 4,
        forall|jj: int| 0 <= jj < j ==> #[trigger] s.l1_block(d, jj) != s.indirect2,
        forall|jj: int| 0 <= jj < j ==> #[trigger] s.l1_block(d, jj) < d.len(),
        dn == d.update(s.indirect2 as int, splice(d[s.indirect2 as int], j * 4, bytes)),
    ensures
        forall|x: int| 0 <= x < INDIRECT1_BOUND + j * 128 ==> #[trigger] s.extra(dn, x) == s.extra(d, x),
{
    assert forall|x: int| 0 <= x < INDIRECT1_BOUND + j * 128 implies #[trigger] s.extra(dn, x) == s.extra(d, x) by {
        if x >= INDIRECT1_BOUND {
            let m = x - INDIRECT1_BOUND;
            let jj = m / 128;
            assert(0 <= jj < j && 0 <= m % 128 < 128) by (nonlinear_arith)
                requires 0 <= m < j * 128, jj == m / 128;
            lemma_u32_frame(d[s.indirect2 as int], j * 4, bytes, jj * 4);
            assert(s.l1_block(dn, jj) == s.l1_block(d, jj));
            assert(s.l1_block(d, jj) != s.indirect2);
        }
    }
}

/// Writing entry `t` of first-level block `j` leaves the blocks of the
/// earlier growth steps alone.
proof fn lemma_frame_l1(s: DiskInode, d: Seq<Seq<u8>>, dn: Seq<Seq<u8>>, j: int, t: int, bytes: Seq<u8>)
    requires
        0 <= j < 128,
        0 <= t < 128,
        s.l1_block(d, j) < d.len(),
        s.l1_block(d, j) != s.indirect1,
        s.l1_block(d, j) != s.indirect2,
        s.indirect1 < d.len(),
        s.indirect2 < d.len(),
        d[s.l1_block(d, j) as int].len() == BLOCK_SIZE,
        bytes.len() == 4,
        forall|jj: int| 0 <= jj < j ==> #[trigger] s.l1_block(d, jj) != s.l1_block(d, j),
        forall|jj: int| 0 <= jj < j ==> #[trigger] s.l1_block(d, jj) < d.len(),
        dn == d.update(s.l1_block(d, j) as int, splice(d[s.l1_block(d, j) as int], t * 4, bytes)),
    ensures
        forall|x: int| 0 <= x < INDIRECT1_BOUND + j * 128 + t ==> #[trigger] s.extra(dn, x) == s.extra(d, x),
        s.l1_block(dn, j) == s.l1_block(d, j),
{
    let b = s.l1_block(d, j) as int;
    assert forall|x: int| 0 <= x < INDIRECT1_BOUND + j * 128 + t implies #[trigger] s.extra(dn, x) == s.extra(d, x) by {
        if x >= INDIRECT1_BOUND {
            let m = x - INDIRECT1_BOUND;
            let jj = m / 128;
            let tt = m % 128;
            assert(0 <= jj <= j && 0 <= tt < 128 && (jj == j ==> tt < t)) by (nonlinear_arith)
                requires 0 <= m < j * 128 + t, jj == m / 128, tt == m % 128, t < 128;
            assert(s.l1_block(dn, jj) == s.l1_block(d, jj));
            if jj == j {
                lemma_u32_frame(d[b], t * 4, bytes, tt * 4);
            } else {
                assert(s.l1_block(d, jj) != s.l1_block(d, j));
            }
        }
    }
}

impl DiskInode {
    /// Increase the size of current disk inode, taking the blocks it needs
    /// from `new_blocks` in order: every data block up to the new size is
    /// placed, up to the largest size the layout holds
    #[verifier::rlimit(100)]
    pub fn increase_size(&mut self, new_size: u32, new_blocks: Vec<u32>, block_device: &mut BlockCacheManager)
        requires
            old(block_device).wf(),
            new_size >= old(self).size,
            data_blocks(new_size as int) <= INDIRECT1_BOUND + INDIRECT2_COUNT,
            new_blocks@.len() >= owned_len(data_blocks(new_size as int)) - owned_len(old(self).nblocks()),
            ({
                let l = old(self).grow(old(block_device).view(), old(self).nblocks()) + new_blocks@.subrange(
                    0,
                    owned_len(data_blocks(new_size as int)) - owned_len(old(self).nblocks()),
                );
                &&& l.no_duplicates()
                &&& forall|i: int| 0 <= i < l.len() ==> #[trigger] l[i] < old(block_device).view().len()
            }),
        ensures
            final(block_device).wf(),
            final(block_device).view().len() == old(block_device).view().len(),
            final(self).size == new_size,
            final(self).kind == old(self).kind,
            final(self).grow(final(block_device).view(), data_blocks(new_size as int))
                == old(self).grow(old(block_device).view(), old(self).nblocks()) + new_blocks@.subrange(
                0,
                owned_len(data_blocks(new_size as int)) - owned_len(old(self).nblocks()),
            ),
            forall|b: int| 0 <= b < old(block_device).view().len()
                && !(old(self).grow(old(block_device).view(), old(self).nblocks()) + new_blocks@).contains(b as u32)
                ==> #[trigger] final(block_device).view()[b] == old(block_device).view()[b],
    {
        let ghost d0 = block_device.view();
        let ghost s0 = *old(self);
        let ghost n0 = s0.nblocks();
        let ghost n1 = data_blocks(new_size as int);
        let ghost k = owned_len(n1) - owned_len(n0);
        let ghost l = s0.grow(d0, n0) + new_blocks@.subrange(0, k);
        let ghost all = s0.grow(d0, n0) + new_blocks@;
        proof {
            block_device.lemma_wf();
            lemma_grow_len(s0, d0, n0);
            assert(n0 <= n1) by (nonlinear_arith)
                requires n0 == (s0.size + 511) / 512, n1 == (new_size + 511) / 512, s0.size <= new_size;
            assert(s0.grow(d0, n0) == l.subrange(0, owned_len(n0)));
            vstd::bytes::lemma_auto_spec_u32_to_from_le_bytes();
        }
        let mut block_index = Self::count_data_block(self.size) as usize;
        self.size = new_size;
        let mut new_total_blocks = Self::count_data_block(self.size) as usize;
        let mut p: usize = 0;
        proof {
            assert forall|y: int| 0 <= y < n0 implies #[trigger] self.extra(d0, y) == s0.extra(d0, y) by {}
            lemma_grow_frame(*self, s0, d0, d0, n0);
            lemma_grow_len(s0, d0, n0);
            lemma_owned_len_mono(n0, n1);
            assert(l.len() == owned_len(n1));
            assert(l.subrange(0, owned_len(n0)) =~= s0.grow(d0, n0));
        }

        // -------------------- Direct Blocks --------------------
        let direct_end = if new_total_blocks < DIRECT_COUNT { new_total_blocks } else { DIRECT_COUNT };
        while block_index < direct_end
            invariant
                block_index >= n0,
                n0 <= n1,
                direct_end == min_int(n1, DIRECT_COUNT as int),
                block_index <= direct_end || block_index == n0,
                owned_len(n0) + p == owned_len(block_index as int),
                p <= k,
                k == owned_len(n1) - owned_len(n0),
                l == s0.grow(d0, n0) + new_blocks@.subrange(0, k),
                l.len() == owned_len(n1),
                s0.grow(d0, n0).len() == owned_len(n0),
                new_blocks@.len() >= k,
                self.grow(d0, block_index as int) == l.subrange(0, owned_len(block_index as int)),
                self.size == new_size,
                self.kind == s0.kind,
                self.indirect1 == s0.indirect1,
                self.indirect2 == s0.indirect2,
                block_device.view() == d0,
                block_device.wf(),
                d0 == old(block_device).view(),
            decreases direct_end - block_index,
        {
            let ghost before = *self;
            proof {
                lemma_owned_len_mono(block_index as int, n1);
            }
            let x = new_blocks[p];
            self.direct[block_index] = x;
            proof {
                lemma_owned_len_mono(block_index as int + 1, n1);
                assert forall|y: int| 0 <= y < block_index implies #[trigger] self.extra(d0, y) == before.extra(d0, y) by {}
                lemma_grow_frame(*self, before, d0, d0, block_index as int);
                lemma_grow_len(*self, d0, block_index as int);
                assert(self.extra(d0, block_index as int) == seq![x]);
                assert(l[owned_len(block_index as int)] == x);
                assert(self.grow(d0, block_index + 1) =~= l.subrange(0, owned_len(block_index + 1)));
            }
            p = p + 1;
            block_index = block_index + 1;
        }
        // ----------------- End of Direct Blocks ----------------

        if new_total_blocks <= DIRECT_COUNT {
            proof {
                assert(l.subrange(0, owned_len(n1)) =~= l);
            }
            return;
        }

        // -------------------- Indirect Level 1 -----------------
        proof {
            lemma_grow_len(s0, d0, n0);
            assert(l.len() == owned_len(n1));
            assert(owned_len(n1) > 28);
            if n0 > DIRECT_BOUND {
                lemma_grow_index_positions(s0, d0, n0);
                assert(l[27] == s0.grow(d0, n0)[27]);
            }
        }
        if block_index == DIRECT_COUNT {
            let x = new_blocks[p];
            let ghost before = *self;
            self.indirect1 = x;
            p = p + 1;
            proof {
                assert forall|y: int| 0 <= y < 27 implies #[trigger] self.extra(d0, y) == before.extra(d0, y) by {}
                lemma_grow_frame(*self, before, d0, d0, 27);
                assert(owned_len(27) == 27);
                assert(l[27] == x);
            }
        }
        let ghost c_start = block_index as int;
        block_index -= DIRECT_COUNT;
        new_total_blocks -= DIRECT_COUNT;
        let ind1 = self.indirect1;
        let indirect1_end = if new_total_blocks < INDIRECT1_COUNT { new_total_blocks } else { INDIRECT1_COUNT };
        while block_index < indirect1_end
            invariant
                27 <= block_index + 27,
                block_index + 27 >= n0,
                n0 <= n1,
                n1 > DIRECT_BOUND,
                new_total_blocks + 27 == n1,
                indirect1_end == min_int(n1 - 27, INDIRECT1_COUNT as int),
                block_index <= indirect1_end || block_index + 27 == n0,
                owned_len(n0) + p == owned_len(block_index + 27) + (if block_index == 0 { 1int } else { 0int }),
                k == owned_len(n1) - owned_len(n0),
                l == s0.grow(d0, n0) + new_blocks@.subrange(0, k),
                l.len() == owned_len(n1),
                l.no_duplicates(),
                forall|i: int| 0 <= i < l.len() ==> #[trigger] l[i] < d0.len(),
                new_blocks@.len() >= k,
                self.grow(block_device.view(), block_index + 27) + (if block_index == 0 { seq![ind1] } else { Seq::empty() })
                    == l.subrange(0, owned_len(block_index + 27) + (if block_index == 0 { 1int } else { 0int })),
                ind1 == self.indirect1,
                ind1 == l[27],
                self.size == new_size,
                self.kind == s0.kind,
                self.indirect2 == s0.indirect2,
                block_device.wf(),
                block_device.view().len() == d0.len(),
                forall|bb: int| 0 <= bb < d0.len() && !l.contains(bb as u32) ==> #[trigger] block_device.view()[bb] == d0[bb],
                d0 == old(block_device).view(),
            decreases indirect1_end - block_index,
        {
            let ghost dc = block_device.view();
            let ghost c = block_index + 27;
            let x = new_blocks[p];
            proof {
                block_device.lemma_wf();
                vstd::bytes::lemma_auto_spec_u32_to_from_le_bytes();
                assert(ind1 < d0.len());
                assert(l[owned_len(c) + (if block_index == 0 { 1int } else { 0int })] == x);
            }
            block_device.write_u32(ind1 as usize, block_index * 4, x);
            proof {
                let dn = block_device.view();
                lemma_frame_indirect1(*self, dc, dn, c, vstd::bytes::spec_u32_to_le_bytes(x));
                lemma_grow_frame(*self, *self, dn, dc, c);
                assert(self.extra(dn, c) == (if c == 27 { seq![ind1, x] } else { seq![x] }));
                lemma_grow_len(*self, dn, c);
                assert(self.grow(dn, c + 1) =~= l.subrange(0, owned_len(c + 1)));
                assert forall|bb: int| 0 <= bb < d0.len() && !l.contains(bb as u32) implies #[trigger] dn[bb] == d0[bb] by {
                    if bb == ind1 as int {
                        assert(l.contains(ind1));
                    }
                }
            }
            p = p + 1;
            block_index = block_index + 1;
        }
        // ----------------- End of Indirect Level 1 ------------

        if new_total_blocks <= INDIRECT1_COUNT {
            proof {
                assert(l.subrange(0, owned_len(n1)) =~= l);
                assert forall|b: int| 0 <= b < d0.len() && !all.contains(b as u32) implies
                    #[trigger] block_device.view()[b] == d0[b] by {
                    if l.contains(b as u32) {
                        lemma_contains_extended(s0.grow(d0, n0), new_blocks@, k, b as u32);
                    }
                }
            }
            return;
        }

        // -------------------- Indirect Level 2 -----------------
        proof {
            assert(block_index + 27 == n0 || block_index == indirect1_end);
            assert(n1 > INDIRECT1_BOUND);
            lemma_owned_len_mono(156, n1);
            if n0 > INDIRECT1_BOUND {
                lemma_grow_index_positions(s0, d0, n0);
                assert(l[156] == s0.grow(d0, n0)[156]);
            }
        }
        if block_index == INDIRECT1_COUNT {
            let x = new_blocks[p];
            let ghost before = *self;
            let ghost dc = block_device.view();
            self.indirect2 = x;
            p = p + 1;
            proof {
                assert forall|y: int| 0 <= y < 155 implies #[trigger] self.extra(dc, y) == before.extra(dc, y) by {}
                lemma_grow_frame(*self, before, dc, dc, 155);
                assert(owned_len(155) == 156);
                assert(l[156] == x);
            }
        }
        block_index -= INDIRECT1_COUNT;
        new_total_blocks -= INDIRECT1_COUNT;
        let ind2 = self.indirect2;
        let mut index2 = block_index / INDIRECT1_COUNT;
        let mut index1 = block_index % INDIRECT1_COUNT;
        let end2 = new_total_blocks / INDIRECT1_COUNT;
        let end1 = new_total_blocks % INDIRECT1_COUNT;
        let ghost old2: int = if n0 > INDIRECT1_BOUND { n0 - INDIRECT1_BOUND } else { 0 };
        proof {
            assert(block_index == index2 * 128 + index1) by (nonlinear_arith)
                requires index2 == block_index / 128, index1 == block_index % 128;
            assert(new_total_blocks == end2 * 128 + end1) by (nonlinear_arith)
                requires end2 == new_total_blocks / 128, end1 == new_total_blocks % 128;
            assert(block_index == old2);
        }
        while (index2 < end2) || (index2 == end2 && index1 < end1)
            invariant
                n0 <= n1,
                n1 > INDIRECT1_BOUND,
                n1 <= INDIRECT1_BOUND + INDIRECT2_COUNT,
                old2 == (if n0 > INDIRECT1_BOUND { n0 - INDIRECT1_BOUND } else { 0 }),
                new_total_blocks + INDIRECT1_BOUND == n1,
                new_total_blocks == end2 * 128 + end1,
                end1 < 128,
                index1 < 128,
                old2 <= index2 * 128 + index1 <= new_total_blocks,
                block_index == index2 * 128 + index1 + l1_taken(old2, index2 * 128 + index1),
                owned_len(n0) + p == owned_len(155 + index2 * 128 + index1) + (if index2 == 0 && index1 == 0 { 1int } else { 0int }),
                k == owned_len(n1) - owned_len(n0),
                l == s0.grow(d0, n0) + new_blocks@.subrange(0, k),
                l.len() == owned_len(n1),
                l.no_duplicates(),
                forall|i: int| 0 <= i < l.len() ==> #[trigger] l[i] < d0.len(),
                new_blocks@.len() >= k,
                self.grow(block_device.view(), 155 + index2 * 128 + index1) + (if index2 == 0 && index1 == 0 { seq![ind2] } else { Seq::empty() })
                    == l.subrange(0, owned_len(155 + index2 * 128 + index1) + (if index2 == 0 && index1 == 0 { 1int } else { 0int })),
                ind2 == self.indirect2,
                ind2 == l[156],
                self.indirect1 == l[27],
                self.size == new_size,
                self.kind == s0.kind,
                block_device.wf(),
                block_device.view().len() == d0.len(),
                forall|bb: int| 0 <= bb < d0.len() && !l.contains(bb as u32) ==> #[trigger] block_device.view()[bb] == d0[bb],
                d0 == old(block_device).view(),
            decreases new_total_blocks - (index2 * 128 + index1),
        {
            let ghost c: int = 155 + index2 * 128 + index1;
            let ghost j: int = index2 as int;
            let ghost t: int = index1 as int;
            let ghost pend: int = if index2 == 0 && index1 == 0 { 1int } else { 0int };
            let ghost dc = block_device.view();
            proof {
                block_device.lemma_wf();
                vstd::bytes::lemma_auto_spec_u32_to_from_le_bytes();
                assert(c < n1);
                lemma_owned_len_mono(c, n1);
                lemma_owned_len_mono(c + 1, n1);
                assert(j < 128) by (nonlinear_arith)
                    requires c == 155 + j * 128 + t, c < n1, n1 <= 155 + 16384, t >= 0;
                lemma_grow_len(*self, dc, c);
                lemma_grow_index_positions(*self, dc, c);
                assert(owned_len(c) + pend == 157 + 129 * j - (if t == 0 { 0int } else { 0int }) || t > 0);
                // positions of the index blocks in the list
                assert(owned_len(c + 1) > 157 + 129 * j) by (nonlinear_arith)
                    requires c == 155 + j * 128 + t, owned_len(c + 1) == c + 1 + 1 + 1 + (c + 1 - 155 + 127) / 128, 0 <= t < 128;
                let g = self.grow(dc, c);
                let ps: Seq<u32> = if index2 == 0 && index1 == 0 { seq![ind2] } else { Seq::empty() };
                assert(g + ps == l.subrange(0, owned_len(c) + pend));
                assert forall|i: int| 0 <= i < owned_len(c) implies #[trigger] g[i] == l[i] by {
                    assert((g + ps)[i] == g[i]);
                }
                assert forall|jj: int| 0 <= jj < j implies #[trigger] self.l1_block(dc, jj) == l[157 + 129 * jj] by {
                    assert(155 + jj * 128 < c) by (nonlinear_arith)
                        requires jj < j, c == 155 + j * 128 + t, t >= 0;
                    assert(157 + 129 * jj < owned_len(c)) by (nonlinear_arith)
                        requires jj < j, c == 155 + j * 128 + t, owned_len(c) == c + 1 + 1 + (c - 155 + 127) / 128, t >= 0, jj >= 0;
                    assert(g[157 + 129 * jj] == self.l1_block(dc, jj));
                }
            }
            if index1 == 0 {
                let x = new_blocks[p];
                proof {
                    if j == 0 {
                        assert(owned_len(c) == 156);
                    } else {
                        assert((j * 128 + 127) / 128 == j) by (nonlinear_arith)
                            requires j > 0;
                        assert(owned_len(c) == c + 2 + j);
                    }
                    assert(owned_len(c) + pend == 157 + 129 * j);
                    assert(x == l[157 + 129 * j]);
                    assert forall|jj: int| 0 <= jj < j implies #[trigger] self.l1_block(dc, jj) != ind2 by {
                        assert(l[157 + 129 * jj] != l[156]);
                    }
                    assert forall|jj: int| 0 <= jj < j implies #[trigger] self.l1_block(dc, jj) < dc.len() by {}
                    assert(l[156] != l[27]);
                }
                block_device.write_u32(ind2 as usize, index2 * 4, x);
                proof {
                    lemma_frame_indirect2(*self, dc, block_device.view(), j, vstd::bytes::spec_u32_to_le_bytes(x));
                    lemma_grow_frame(*self, *self, block_device.view(), dc, c);
                }
                p = p + 1;
                block_index = block_index + 1;
            }
            let ghost dm = block_device.view();
            let ptr = block_device.read_u32(ind2 as usize, index2 * 4);
            let x2 = new_blocks[p];
            proof {
                assert(self.grow(dm, c) == self.grow(dc, c));
                assert(ptr == self.l1_block(dm, j));
                assert(ptr == l[157 + 129 * j]) by {
                    if t > 0 {
                        assert(155 + j * 128 < c);
                        assert(157 + 129 * j < owned_len(c)) by (nonlinear_arith)
                            requires c == 155 + j * 128 + t, t > 0, owned_len(c) == c + 1 + 1 + (c - 155 + 127) / 128, j >= 0;
                        assert(self.grow(dc, c)[157 + 129 * j] == self.l1_block(dc, j));
                        assert(self.l1_block(dm, j) == self.l1_block(dc, j));
                    }
                }
                assert(owned_len(n0) + p == owned_len(c) + pend + (if t == 0 { 1int } else { 0int }));
                assert(x2 == l[owned_len(c) + pend + (if t == 0 { 1int } else { 0int })]);
                assert(ptr != ind2) by { assert(l[157 + 129 * j] != l[156]); }
                assert(ptr != self.indirect1) by { assert(l[157 + 129 * j] != l[27]); }
                assert forall|jj: int| 0 <= jj < j implies #[trigger] self.l1_block(dm, jj) != ptr by {
                    if t == 0 {
                        lemma_u32_frame(dc[ind2 as int], j * 4, vstd::bytes::spec_u32_to_le_bytes(l[157 + 129 * j]), jj * 4);
                    }
                    assert(self.l1_block(dm, jj) == self.l1_block(dc, jj));
                    assert(l[157 + 129 * jj] != l[157 + 129 * j]);
                }
                assert forall|jj: int| 0 <= jj < j implies #[trigger] self.l1_block(dm, jj) < dm.len() by {
                    if t == 0 {
                        lemma_u32_frame(dc[ind2 as int], j * 4, vstd::bytes::spec_u32_to_le_bytes(l[157 + 129 * j]), jj * 4);
                    }
                    assert(self.l1_block(dm, jj) == self.l1_block(dc, jj));
                    assert(l[157 + 129 * jj] < d0.len());
                }
                assert(ptr < d0.len());
                block_device.lemma_wf();
            }
            block_device.write_u32(ptr as usize, index1 * 4, x2);
            proof {
                let dn = block_device.view();
                lemma_frame_l1(*self, dm, dn, j, t, vstd::bytes::spec_u32_to_le_bytes(x2));
                lemma_grow_frame(*self, *self, dn, dm, c);
                assert(self.extra(dn, c) == (if c == 155 { seq![ind2, ptr, x2] } else if t == 0 { seq![ptr, x2] } else { seq![x2] })) by {
                    assert((c - 155) / 128 == j && (c - 155) % 128 == t) by (nonlinear_arith)
                        requires c == 155 + j * 128 + t, 0 <= t < 128, j >= 0;
                }
                lemma_grow_len(*self, dn, c);
                assert(self.grow(dn, c + 1) =~= l.subrange(0, owned_len(c + 1)));
                assert forall|bb: int| 0 <= bb < d0.len() && !l.contains(bb as u32) implies #[trigger] dn[bb] == d0[bb] by {
                    if bb == ptr as int {
                        assert(l.contains(ptr));
                    }
                    if bb == ind2 as int {
                        assert(l.contains(ind2));
                    }
                }
            }
            p = p + 1;
            block_index = block_index + 1;

            index1 += 1;
            if index1 == INDIRECT1_COUNT {
                index1 = 0;
                index2 += 1;
            }
            proof {
                assert(index2 * 128 + index1 == c - 155 + 1);
                assert(l1_taken(old2, c - 155 + 1) == l1_taken(old2, c - 155) + (if t == 0 { 1int } else { 0int })) by (nonlinear_arith)
                    requires c - 155 == j * 128 + t, 0 <= t < 128, old2 <= c - 155, j >= 0,
                    l1_taken(old2, c - 155 + 1) == (c - 155 + 1 + 127) / 128 - (old2 + 127) / 128,
                    l1_taken(old2, c - 155) == (c - 155 + 127) / 128 - (old2 + 127) / 128;
            }
        }
        // ----------------- End of Indirect Level 2 ------------
        proof {
            let c = 155 + index2 * 128 + index1;
            if c < n1 {
                // the guard on the counter never stops the loop early
                assert(l1_taken(old2, index2 * 128 + index1) <= l1_taken(old2, n1 - 156)) by (nonlinear_arith)
                    requires index2 * 128 + index1 <= n1 - 156,
                    l1_taken(old2, index2 * 128 + index1) == (index2 * 128 + index1 + 127) / 128 - (old2 + 127) / 128,
                    l1_taken(old2, n1 - 156) == (n1 - 156 + 127) / 128 - (old2 + 127) / 128;
                assert(false);
            }
            assert(c == n1);
            assert(l.subrange(0, owned_len(n1)) =~= l);
            assert forall|b: int| 0 <= b < d0.len() && !all.contains(b as u32) implies
                #[trigger] block_device.view()[b] == d0[b] by {
                if l.contains(b as u32) {
                    lemma_contains_extended(s0.grow(d0, n0), new_blocks@, k, b as u32);
                }
            }
        }
    }
}

/// The blocks a clear releases are exactly the blocks the inode took while
/// growing, in the same order, and there are as many as
/// `DiskInode::count_total_block` counts.
pub proof fn lemma_owned_is_grow(s: DiskInode, d: Seq<Seq<u8>>, n: int)
    requires
        0 <= n <= INDIRECT1_BOUND + INDIRECT2_COUNT,
    ensures
        s.owned(d, n) == s.grow(d, n),
        s.grow(d, n).len() == owned_len(n),
    decreases n,
{
    lemma_grow_len(s, d, n);
    if n > 0 {
        let x = n - 1;
        lemma_owned_is_grow(s, d, x);
        if x < DIRECT_BOUND {
            assert(s.owned(d, n) =~= s.owned(d, x) + s.extra(d, x));
        } else if x == DIRECT_BOUND {
            assert(s.owned(d, n) =~= s.owned(d, x) + s.extra(d, x));
        } else if x < INDIRECT1_BOUND {
            assert(entries(d, s.indirect1, x - 27 + 1) =~= entries(d, s.indirect1, x - 27) + seq![u32_at(d[s.indirect1 as int], (x - 27) * 4)]);
            assert(s.owned(d, n) =~= s.owned(d, x) + s.extra(d, x));
        } else {
            let m = x - INDIRECT1_BOUND;
            let j = m / 128;
            let r = m % 128;
            assert(m == j * 128 + r && 0 <= r < 128 && j >= 0) by (nonlinear_arith)
                requires j == m / 128, r == m % 128, m >= 0;
            super::layout::lemma_level2_step(d, s.indirect2, j, r + 1);
            if r == 0 {
                assert(level2(d, s.indirect2, m + 1) =~= level2(d, s.indirect2, m) + s.extra(d, x).subrange(
                    if x == INDIRECT1_BOUND { 1int } else { 0int },
                    s.extra(d, x).len() as int,
                ));
            } else {
                super::layout::lemma_level2_step(d, s.indirect2, j, r);
                let l1 = u32_at(d[s.indirect2 as int], j * 4);
                assert(entries(d, l1, r + 1) =~= entries(d, l1, r) + seq![u32_at(d[l1 as int], r * 4)]);
                assert(level2(d, s.indirect2, m + 1) =~= level2(d, s.indirect2, m) + s.extra(d, x));
            }
            assert(s.owned(d, n) =~= s.owned(d, x) + s.extra(d, x));
        }
    } else {
        assert(s.owned(d, n) =~= s.grow(d, n));
    }
}

/// For every size a file can have, `count_total_block` is the number of
/// blocks the file owns.
pub proof fn lemma_total_blocks_is_owned_len(size: int)
    requires
        0 <= size,
        data_blocks(size) <= INDIRECT1_BOUND + INDIRECT2_COUNT,
    ensures
        total_blocks(size) == owned_len(data_blocks(size)),
{
    let n = data_blocks(size);
    if n > INDIRECT1_BOUND {
        assert((n - 155 + 127) / 128 <= 128) by (nonlinear_arith)
            requires n <= 155 + 16384;
    }
}

/// A second level of `m` blocks holds `m` data blocks and one first-level
/// block for each group of 128 of them.
proof fn lemma_level2_len(d: Seq<Seq<u8>>, ind2: u32, m: int)
    requires
        0 <= m,
    ensures
        level2(d, ind2, m).len() == m + (m + 127) / 128,
    decreases m,
{
    if m > 0 {
        let jj = (m - 1) / 128;
        assert(0 <= jj * 128 < m && m <= jj * 128 + 128 && (m + 127) / 128 == jj + 1 && (jj * 128 + 127) / 128 == jj)
            by (nonlinear_arith)
            requires jj == (m - 1) / 128, m > 0;
        lemma_level2_len(d, ind2, jj * 128);
    }
}

/// Where the blocks of a second level of `m` blocks lie in it: first-level
/// block `j` at `129 * j`, followed by the data blocks it lists.
proof fn lemma_level2_index(d: Seq<Seq<u8>>, ind2: u32, m: int, j: int, r: int)
    requires
        0 <= j,
        0 <= r < 128,
        j * 128 + r < m,
    ensures
        level2(d, ind2, m)[j * 129] == u32_at(d[ind2 as int], j * 4),
        level2(d, ind2, m)[j * 129 + 1 + r] == u32_at(d[u32_at(d[ind2 as int], j * 4) as int], r * 4),
    decreases m,
{
    let jj = (m - 1) / 128;
    assert(0 <= jj * 128 < m && m <= jj * 128 + 128 && j <= jj && (j < jj ==> j * 128 + r < jj * 128))
        by (nonlinear_arith)
        requires jj == (m - 1) / 128, 0 <= j, 0 <= r < 128, j * 128 + r < m;
    lemma_level2_len(d, ind2, jj * 128);
    assert((jj * 128 + 127) / 128 == jj) by (nonlinear_arith)
        requires jj >= 0;
    let l = level2(d, ind2, jj * 128);
    let l1 = u32_at(d[ind2 as int], jj * 4);
    assert(level2(d, ind2, m) == l + seq![l1] + entries(d, l1, m - jj * 128));
    if j < jj {
        lemma_level2_index(d, ind2, jj * 128, j, r);
        assert(j * 129 + 1 + r < jj * 129) by (nonlinear_arith)
            requires j < jj, r < 128, 0 <= r;
    } else {
        assert(j == jj);
        assert(j * 129 == l.len());
    }
}

/// Where data block `i` lies among the blocks an inode owns (see
/// [`DiskInode::owned`]): the direct ones first, then after the first
/// index block, then after the second-level index block, each group of 128
/// after its first-level block.
pub open spec fn data_pos(i: int) -> int {
    if i < DIRECT_BOUND {
        i
    } else if i < INDIRECT1_BOUND {
        i + 1
    } else {
        158 + ((i - INDIRECT1_BOUND) / 128) * 129 + (i - INDIRECT1_BOUND) % 128
    }
}

/// The blocks an inode owns hold its data blocks at [`data_pos`], the
/// first index block at 27, the second-level one at 156 and first-level
/// block `j` at `157 + 129 * j`.
pub proof fn lemma_owned_positions(s: DiskInode, d: Seq<Seq<u8>>, i: int, j: int)
    requires
        0 <= s.nblocks() <= INDIRECT1_BOUND + INDIRECT2_COUNT,
        0 <= j,
    ensures
        0 <= i < s.nblocks() ==> 0 <= data_pos(i) < s.owned(d, s.nblocks()).len()
            && s.owned(d, s.nblocks())[data_pos(i)] == s.data_block(d, i),
        s.nblocks() > DIRECT_BOUND ==> s.owned(d, s.nblocks())[27] == s.indirect1,
        s.nblocks() > INDIRECT1_BOUND ==> s.owned(d, s.nblocks())[156] == s.indirect2,
        INDIRECT1_BOUND + j * 128 < s.nblocks() ==> 157 + j * 129 < s.owned(d, s.nblocks()).len()
            && s.owned(d, s.nblocks())[157 + j * 129] == s.l1_block(d, j),
{
    let n = s.nblocks();
    let a = s.direct@.subrange(0, min_int(n, DIRECT_COUNT as int));
    let b = if n > DIRECT_BOUND {
        seq![s.indirect1] + entries(d, s.indirect1, min_int(n - DIRECT_BOUND, INDIRECT1_COUNT as int))
    } else {
        Seq::<u32>::empty()
    };
    let c = if n > INDIRECT1_BOUND {
        seq![s.indirect2] + level2(d, s.indirect2, n - INDIRECT1_BOUND)
    } else {
        Seq::<u32>::empty()
    };
    let o = s.owned(d, n);
    assert(o == a + b + c);
    if n > INDIRECT1_BOUND {
        lemma_level2_len(d, s.indirect2, n - INDIRECT1_BOUND);
        assert(a.len() == 27 && b.len() == 129);
    }
    if 0 <= i < n {
        if i < DIRECT_BOUND {
            assert(o[i] == a[i]);
        } else if i < INDIRECT1_BOUND {
            assert(a.len() == 27);
            assert(o[i + 1] == b[i - 26]);
        } else {
            let m = i - INDIRECT1_BOUND;
            let jj = m / 128;
            let r = m % 128;
            assert(m == jj * 128 + r && 0 <= r < 128 && jj >= 0) by (nonlinear_arith)
                requires jj == m / 128, r == m % 128, m >= 0;
            lemma_level2_index(d, s.indirect2, n - INDIRECT1_BOUND, jj, r);
            assert(data_pos(i) == 156 + 1 + jj * 129 + 1 + r);
            assert(o[data_pos(i)] == c[1 + jj * 129 + 1 + r]);
        }
    }
    if n > DIRECT_BOUND {
        assert(a.len() == 27);
        assert(o[27] == b[0]);
    }
    if n > INDIRECT1_BOUND {
        assert(o[156] == c[0]);
    }
    if INDIRECT1_BOUND + j * 128 < n {
        lemma_level2_index(d, s.indirect2, n - INDIRECT1_BOUND, j, 0);
        assert(o[157 + j * 129] == c[1 + j * 129]);
    }
}

/// Two data blocks lie at different places among the blocks owned, and no
/// index block lies where a data block does.
proof fn lemma_data_pos(i: int, k: int, j: int)
    requires
        0 <= i,
        0 <= k,
        0 <= j,
    ensures
        i != k ==> data_pos(i) != data_pos(k),
        data_pos(i) != 27 || i == 26,
        i < DIRECT_BOUND ==> data_pos(i) < 27,
        data_pos(i) != 156,
        data_pos(i) != 157 + j * 129,
{
    if i >= INDIRECT1_BOUND {
        let m = i - INDIRECT1_BOUND;
        assert(0 <= m % 128 < 128 && m / 128 >= 0 && data_pos(i) >= 158) by (nonlinear_arith)
            requires m >= 0, data_pos(i) == 158 + (m / 128) * 129 + m % 128;
        assert(data_pos(i) != 157 + j * 129) by (nonlinear_arith)
            requires data_pos(i) == 158 + (m / 128) * 129 + m % 128, 0 <= m % 128 < 128, m / 128 >= 0, j >= 0;
    }
    if i >= INDIRECT1_BOUND && k >= INDIRECT1_BOUND && i != k {
        let m = i - INDIRECT1_BOUND;
        let q = k - INDIRECT1_BOUND;
        assert(data_pos(i) != data_pos(k)) by (nonlinear_arith)
            requires
                m >= 0, q >= 0, m != q,
                data_pos(i) == 158 + (m / 128) * 129 + m % 128,
                data_pos(k) == 158 + (q / 128) * 129 + q % 128,
        {
            assert(m == (m / 128) * 128 + m % 128 && 0 <= m % 128 < 128);
            assert(q == (q / 128) * 128 + q % 128 && 0 <= q % 128 < 128);
            if m / 128 == q / 128 {
            } else if m / 128 < q / 128 {
                assert((m / 128) * 129 + 129 <= (q / 128) * 129);
            } else {
                assert((q / 128) * 129 + 129 <= (m / 128) * 129);
            }
        }
    }
}

/// An inode whose blocks, in the order it took them while growing, are
/// pairwise distinct and lie on the disk can be read and written: each of
/// its data blocks can be found and lies on the disk, no two are the same,
/// and none is one of its index blocks. This is what
/// [`DiskInode::increase_size`] leaves when it is handed fresh blocks, and
/// what [`DiskInode::read_at`] and [`DiskInode::write_at`] need.
pub proof fn lemma_distinct_growth_readable(s: DiskInode, d: Seq<Seq<u8>>)
    requires
        s.nblocks() <= INDIRECT1_BOUND + INDIRECT2_COUNT,
        s.grow(d, s.nblocks()).no_duplicates(),
        forall|k: int| 0 <= k < s.grow(d, s.nblocks()).len() ==> #[trigger] s.grow(d, s.nblocks())[k] < d.len(),
    ensures
        s.readable(d),
        s.distinct_blocks(d),
{
    let n = s.nblocks();
    lemma_owned_is_grow(s, d, n);
    let o = s.owned(d, n);
    assert forall|i: int| 0 <= i < n implies #[trigger] s.data_block(d, i) < d.len() by {
        lemma_owned_positions(s, d, i, 0);
    }
    assert forall|i: int| 0 <= i < n implies #[trigger] s.reaches(d, i) by {
        lemma_owned_positions(s, d, i, 0);
        if i >= INDIRECT1_BOUND {
            let jj = (i - INDIRECT1_BOUND) / 128;
            assert(jj >= 0 && INDIRECT1_BOUND + jj * 128 < n) by (nonlinear_arith)
                requires jj == (i - INDIRECT1_BOUND) / 128, i >= INDIRECT1_BOUND, i < n;
            lemma_owned_positions(s, d, i, jj);
        }
    }
    assert forall|i: int, k: int| 0 <= i < k < n implies #[trigger] s.data_block(d, i) != #[trigger] s.data_block(d, k) by {
        lemma_owned_positions(s, d, i, 0);
        lemma_owned_positions(s, d, k, 0);
        lemma_data_pos(i, k, 0);
    }
    assert forall|i: int, k: int| 0 <= i < n && 0 <= k < n implies !#[trigger] s.index_block_of(
        d,
        k,
        #[trigger] s.data_block(d, i) as int,
    ) by {
        lemma_owned_positions(s, d, i, 0);
        let b = s.data_block(d, i) as int;
        if DIRECT_BOUND <= k < INDIRECT1_BOUND && b == s.indirect1 {
            lemma_data_pos(i, 0, 0);
            if i == 26 {
                assert(data_pos(i) == 26);
            }
            assert(o[27] == s.indirect1);
        }
        if k >= INDIRECT1_BOUND {
            lemma_owned_positions(s, d, k, 0);
            lemma_data_pos(i, 0, 0);
            if b == s.indirect2 {
                assert(o[156] == s.indirect2);
            }
            let jj = (k - INDIRECT1_BOUND) / 128;
            assert(jj >= 0 && INDIRECT1_BOUND + jj * 128 < n) by (nonlinear_arith)
                requires jj == (k - INDIRECT1_BOUND) / 128, k >= INDIRECT1_BOUND, k < n;
            lemma_owned_positions(s, d, i, jj);
            lemma_data_pos(i, 0, jj);
            if b == u32_at(d[s.indirect2 as int], ((k - INDIRECT1_BOUND) / INDIRECT1_COUNT as int) * 4) {
                assert(o[157 + jj * 129] == s.l1_block(d, jj));
            }
        }
    }
}

/// Whether `d1` and `d2` agree on the index blocks of `s` on `d1`: those
/// that [`DiskInode::grow`] and [`DiskInode::data_block`] read.
pub open spec fn same_index_blocks(s: DiskInode, d1: Seq<Seq<u8>>, d2: Seq<Seq<u8>>) -> bool {
    &&& s.nblocks() > DIRECT_BOUND ==> d1[s.indirect1 as int] == d2[s.indirect1 as int]
    &&& s.nblocks() > INDIRECT1_BOUND ==> d1[s.indirect2 as int] == d2[s.indirect2 as int]
    &&& forall|j: int| 0 <= j && INDIRECT1_BOUND + j * 128 < s.nblocks() ==>
        d1[#[trigger] s.l1_block(d1, j) as int] == d2[s.l1_block(d1, j) as int]
}

/// The blocks an inode owns, and where its data blocks are, only depend on
/// its index blocks: a disk that agrees with `d1` on them gives the same.
pub proof fn lemma_grow_same_index(s: DiskInode, d1: Seq<Seq<u8>>, d2: Seq<Seq<u8>>)
    requires
        s.nblocks() <= INDIRECT1_BOUND + INDIRECT2_COUNT,
        same_index_blocks(s, d1, d2),
    ensures
        s.grow(d2, s.nblocks()) == s.grow(d1, s.nblocks()),
        forall|i: int| 0 <= i < s.nblocks() ==> #[trigger] s.data_block(d2, i) == s.data_block(d1, i),
{
    let n = s.nblocks();
    assert forall|x: int| 0 <= x < n implies #[trigger] s.extra(d1, x) == s.extra(d2, x) by {
        if x >= INDIRECT1_BOUND {
            let m = x - INDIRECT1_BOUND;
            let jj = m / 128;
            assert(jj >= 0 && INDIRECT1_BOUND + jj * 128 < n) by (nonlinear_arith)
                requires jj == m / 128, m >= 0, x < n, m == x - INDIRECT1_BOUND;
            assert(d1[s.l1_block(d1, jj) as int] == d2[s.l1_block(d1, jj) as int]);
        }
    }
    lemma_grow_frame(s, s, d1, d2, n);
    assert forall|i: int| 0 <= i < n implies #[trigger] s.data_block(d2, i) == s.data_block(d1, i) by {
        if i >= INDIRECT1_BOUND {
            let m = i - INDIRECT1_BOUND;
            let jj = m / 128;
            assert(jj >= 0 && INDIRECT1_BOUND + jj * 128 < n) by (nonlinear_arith)
                requires jj == m / 128, m >= 0, i < n, m == i - INDIRECT1_BOUND;
            assert(d1[s.l1_block(d1, jj) as int] == d2[s.l1_block(d1, jj) as int]);
        }
    }
}

/// A disk that agrees with `d1` on every block an inode owns agrees with
/// it on the inode's index blocks.
pub proof fn lemma_same_owned_same_index(s: DiskInode, d1: Seq<Seq<u8>>, d2: Seq<Seq<u8>>)
    requires
        s.nblocks() <= INDIRECT1_BOUND + INDIRECT2_COUNT,
        forall|k: int| 0 <= k < s.grow(d1, s.nblocks()).len() ==> {
            let b = #[trigger] s.grow(d1, s.nblocks())[k] as int;
            d1[b] == d2[b]
        },
    ensures
        same_index_blocks(s, d1, d2),
{
    let n = s.nblocks();
    lemma_owned_is_grow(s, d1, n);
    let o = s.owned(d1, n);
    lemma_owned_positions(s, d1, 0, 0);
    if n > DIRECT_BOUND {
        assert(o[27] == s.indirect1);
    }
    if n > INDIRECT1_BOUND {
        assert(o[156] == s.indirect2);
    }
    assert forall|j: int| 0 <= j && INDIRECT1_BOUND + j * 128 < n implies
        d1[#[trigger] s.l1_block(d1, j) as int] == d2[s.l1_block(d1, j) as int] by {
        lemma_owned_positions(s, d1, 0, j);
        assert(o[157 + j * 129] == s.l1_block(d1, j));
    }
}

/// A disk on which only data blocks of an inode with distinct blocks
/// changed agrees with the old one on the inode's index blocks.
pub proof fn lemma_data_writes_keep_index(s: DiskInode, d1: Seq<Seq<u8>>, d2: Seq<Seq<u8>>)
    requires
        s.readable(d1),
        s.distinct_blocks(d1),
        d1.len() == d2.len(),
        forall|b: int| 0 <= b < d1.len() && !s.is_data_block(d1, b) ==> #[trigger] d2[b] == d1[b],
    ensures
        same_index_blocks(s, d1, d2),
{
    let n = s.nblocks();
    if n > DIRECT_BOUND {
        assert(s.reaches(d1, DIRECT_BOUND as int));
        if s.is_data_block(d1, s.indirect1 as int) {
            let i = choose|i: int| 0 <= i < n && s.data_block(d1, i) == s.indirect1 as int;
            assert(s.index_block_of(d1, DIRECT_BOUND as int, s.data_block(d1, i) as int));
        }
    }
    if n > INDIRECT1_BOUND {
        assert(s.reaches(d1, INDIRECT1_BOUND as int));
        if s.is_data_block(d1, s.indirect2 as int) {
            let i = choose|i: int| 0 <= i < n && s.data_block(d1, i) == s.indirect2 as int;
            assert(s.index_block_of(d1, INDIRECT1_BOUND as int, s.data_block(d1, i) as int));
        }
    }
    assert forall|j: int| 0 <= j && INDIRECT1_BOUND + j * 128 < n implies
        d1[#[trigger] s.l1_block(d1, j) as int] == d2[s.l1_block(d1, j) as int] by {
        let k = INDIRECT1_BOUND + j * 128;
        assert((k - INDIRECT1_BOUND) / 128 == j) by (nonlinear_arith)
            requires k == INDIRECT1_BOUND + j * 128, j >= 0;
        assert(s.reaches(d1, k));
        let b = s.l1_block(d1, j) as int;
        if s.is_data_block(d1, b) {
            let i = choose|i: int| 0 <= i < n && s.data_block(d1, i) == b;
            assert(s.index_block_of(d1, k, s.data_block(d1, i) as int));
        }
    }
}

} // verus!
