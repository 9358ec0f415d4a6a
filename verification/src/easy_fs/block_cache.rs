//! Write-back cache of disk blocks.

use vstd::prelude::*;
use super::block_dev::BlockDevice;
use super::config::{BLOCK_CACHE_SIZE, BLOCK_SIZE};

verus! {

/// Cached block inside memory
pub struct BlockCache {
    /// cached block data
    cache: Vec<u8>,
    /// underlying block id
    block_id: usize,
    /// whether the block is dirty
    modified: bool,
}

impl BlockCache {
    /// The cached bytes.
    pub closed spec fn data(&self) -> Seq<u8> {
        self.cache@
    }

    /// The block this cache holds.
    pub closed spec fn id(&self) -> usize {
        self.block_id
    }

    /// Whether the cached bytes differ from what was last written to disk.
    pub closed spec fn dirty(&self) -> bool {
        self.modified
    }

    /// Load a new [`BlockCache`] from disk
    pub fn new(block_id: usize, block_device: &BlockDevice) -> (c: Self)
        requires
            block_device.wf(),
            block_id < block_device@.len(),
        ensures
            c.data() == block_device@[block_id as int],
            c.data().len() == BLOCK_SIZE,
            c.id() == block_id,
            !c.dirty(),
    {
        let cache = block_device.read_block(block_id);
        BlockCache { cache, block_id, modified: false }
    }

    /// Write the cached bytes back when they are dirty.
    pub fn sync(&mut self, block_device: &mut BlockDevice)
        requires
            old(block_device).wf(),
            old(self).id() < old(block_device)@.len(),
            old(self).data().len() == BLOCK_SIZE,
        ensures
            final(block_device).wf(),
            final(self).data() == old(self).data(),
            final(self).id() == old(self).id(),
            !final(self).dirty(),
            final(block_device)@ == (if old(self).dirty() {
                old(block_device)@.update(old(self).id() as int, old(self).data())
            } else {
                old(block_device)@
            }),
    {
        if self.modified {
            self.modified = false;
            block_device.write_block(self.block_id, self.cache.as_slice());
        }
    }

    /// Read `len` bytes starting at `offset` of the cached block.
    pub fn read(&self, offset: usize, len: usize) -> (bytes: Vec<u8>)
        requires
            offset + len <= self.data().len(),
        ensures
            bytes@ == self.data().subrange(offset as int, offset + len),
    {
        let mut bytes: Vec<u8> = Vec::new();
        let n = self.cache.len();
        let mut i: usize = 0;
        while i < len
            invariant
                i <= len,
                n == self.cache@.len(),
                offset + len <= n,
                bytes@ == self.cache@.subrange(offset as int, offset + i),
            decreases len - i,
        {
            bytes.push(self.cache[offset + i]);
            i = i + 1;
            assert(bytes@ =~= self.cache@.subrange(offset as int, offset + i));
        }
        bytes
    }

    /// Overwrite the cached block at `offset` with `data`, marking it dirty.
    pub fn modify(&mut self, offset: usize, data: &[u8])
        requires
            offset + data@.len() <= old(self).data().len(),
        ensures
            final(self).data() == splice(old(self).data(), offset as int, data@),
            final(self).id() == old(self).id(),
            final(self).dirty(),
    {
        self.modified = true;
        let n = self.cache.len();
        let mut i: usize = 0;
        while i < data.len()
            invariant
                i <= data@.len(),
                n == self.cache@.len(),
                offset + data@.len() <= n,
                self.cache@.len() == old(self).cache@.len(),
                self.block_id == old(self).block_id,
                self.modified,
                forall|k: int|
                    0 <= k < self.cache@.len() ==> #[trigger] self.cache@[k] == (if offset <= k < offset
                        + i { data@[k - offset] } else { old(self).cache@[k] }),
            decreases data@.len() - i,
        {
            self.cache.set(offset + i, data[i]);
            i = i + 1;
        }
        assert(self.cache@ =~= splice(old(self).cache@, offset as int, data@));
    }
}

/// `s` with the bytes from `offset` on replaced by `data`.
pub open spec fn splice(s: Seq<u8>, offset: int, data: Seq<u8>) -> Seq<u8> {
    Seq::new(
        s.len(),
        |k: int|
            if offset <= k < offset + data.len() {
                data[k - offset]
            } else {
                s[k]
            },
    )
}

/// The caches held in memory, in front of the device they cache.
pub struct BlockCacheManager {
    queue: Vec<BlockCache>,
    device: BlockDevice,
}

impl BlockCacheManager {
    /// Whether block `b` has a cache in memory.
    pub closed spec fn is_cached(&self, b: int) -> bool {
        queue_has(self.queue@, b)
    }

    /// The current contents of block `b`, as the file system sees it:
    /// the cache when there is one, else the device.
    pub closed spec fn block(&self, b: int) -> Seq<u8> {
        block_of(self.queue@, self.device@, b)
    }

    /// What the device holds now, before the dirty caches are written back.
    pub closed spec fn device_view(&self) -> Seq<Seq<u8>> {
        self.device@
    }

    /// The block held by the cache at position `i`.
    pub closed spec fn cached_id(&self, i: int) -> usize {
        self.queue@[i].id()
    }

    /// Whether the cache at position `i` differs from the device.
    pub closed spec fn cached_dirty(&self, i: int) -> bool {
        self.queue@[i].dirty()
    }

    /// Number of blocks held in memory.
    pub closed spec fn cached_count(&self) -> nat {
        self.queue@.len()
    }

    /// Every cache is a distinct block of the device, a clean cache agrees
    /// with the device, and at most `BLOCK_CACHE_SIZE` blocks are held.
    pub closed spec fn wf(&self) -> bool {
        &&& self.device.wf()
        &&& self.queue@.len() <= BLOCK_CACHE_SIZE
        &&& queue_wf(self.queue@, self.device@)
    }

    proof fn lemma_block_at(&self, i: int)
        requires
            self.wf(),
            0 <= i < self.queue@.len(),
        ensures
            self.is_cached(self.queue@[i].id() as int),
            self.block(self.queue@[i].id() as int) == self.queue@[i].data(),
    {
        lemma_block_of(self.queue@, self.device@, i);
    }

    /// The logical disk: every block as the file system sees it.
    pub closed spec fn view(&self) -> Seq<Seq<u8>> {
        Seq::new(self.device@.len(), |b: int| self.block(b))
    }

    /// A manager with no block in memory, in front of `device`.
    pub fn new(device: BlockDevice) -> (m: Self)
        requires
            device.wf(),
        ensures
            m.wf(),
            m.view() == device@,
            m.device_view() == device@,
            m.cached_count() == 0,
    {
        let m = BlockCacheManager { queue: Vec::new(), device };
        assert(m.view() =~= device@);
        m
    }

    /// Facts every well-formed manager gives: the block count fits a
    /// `usize` and every block holds `BLOCK_SIZE` bytes.
    pub proof fn lemma_wf(&self)
        requires
            self.wf(),
        ensures
            self.view().len() <= usize::MAX,
            forall|b: int| 0 <= b < self.view().len() ==> (#[trigger] self.view()[b]).len() == BLOCK_SIZE,
    {
        self.device.lemma_len();
        assert forall|b: int| 0 <= b < self.view().len() implies (#[trigger] self.view()[b]).len() == BLOCK_SIZE by {
            if self.is_cached(b) {
                let k = choose|k: int| 0 <= k < self.queue@.len() && self.queue@[k].id() == b;
                self.lemma_block_at(k);
            }
        }
    }

    /// Number of blocks on the device behind the caches.
    pub fn num_blocks(&self) -> (n: usize)
        ensures
            n == self.view().len(),
    {
        self.device.num_blocks()
    }

    /// Write the cache at position `i` back to the device when it is dirty.
    fn sync_at(&mut self, i: usize)
        requires
            old(self).wf(),
            i < old(self).queue@.len(),
        ensures
            final(self).wf(),
            final(self).view() == old(self).view(),
            final(self).queue@.len() == old(self).queue@.len(),
            forall|j: int|
                0 <= j < final(self).queue@.len() ==> #[trigger] final(self).queue@[j].id()
                    == old(self).queue@[j].id(),
            !final(self).queue@[i as int].dirty(),
            forall|j: int|
                0 <= j < final(self).queue@.len() && j != i ==> #[trigger] final(self).queue@[j]
                    == old(self).queue@[j],
    {
        proof {
            self.lemma_block_at(i as int);
        }
        let mut c = BlockCache { cache: Vec::new(), block_id: 0, modified: false };
        self.queue.set_and_swap(i, &mut c);
        c.sync(&mut self.device);
        self.queue.set_and_swap(i, &mut c);
        proof {
            let q0 = old(self).queue@;
            let q = self.queue@;
            assert(q == q0.update(i as int, q[i as int]));
            assert forall|j: int| 0 <= j < q.len() implies {
                &&& #[trigger] q[j].id() < self.device@.len()
                &&& q[j].data().len() == BLOCK_SIZE
                &&& !q[j].dirty() ==> q[j].data() == self.device@[q[j].id() as int]
            } by {
                if j != i as int {
                    if j < i {
                        assert(q0[j].id() != q0[i as int].id());
                    } else {
                        assert(q0[i as int].id() != q0[j].id());
                    }
                }
            }
            assert forall|a: int, b: int| 0 <= a < b < q.len() implies #[trigger] q[a].id()
                != #[trigger] q[b].id() by {
                assert(q0[a].id() != q0[b].id());
            }
            assert(self.wf());
            assert forall|b: int| 0 <= b < self.device@.len() implies self.block(b) == old(self).block(
                b,
            ) by {
                if old(self).is_cached(b) {
                    let k = choose|k: int| 0 <= k < q0.len() && q0[k].id() == b;
                    old(self).lemma_block_at(k);
                    self.lemma_block_at(k);
                } else {
                    if self.is_cached(b) {
                        let k = choose|k: int| 0 <= k < q.len() && q[k].id() == b;
                        assert(q0[k].id() == b);
                    }
                    assert(b != q0[i as int].id());
                }
            }
            assert(self.view() =~= old(self).view());
        }
    }

    /// Write every dirty cache back to the device; every cache stays, for
    /// the same block, and is clean.
    pub fn sync_all(&mut self)
        requires
            old(self).wf(),
        ensures
            final(self).wf(),
            final(self).view() == old(self).view(),
            final(self).device_view() == old(self).view(),
            final(self).cached_count() == old(self).cached_count(),
            forall|i: int| 0 <= i < final(self).cached_count() ==> #[trigger] final(self).cached_id(i) == old(self).cached_id(i),
            forall|i: int| 0 <= i < final(self).cached_count() ==> !#[trigger] final(self).cached_dirty(i),
    {
        let mut i: usize = 0;
        while i < self.queue.len()
            invariant
                self.wf(),
                self.view() == old(self).view(),
                i <= self.queue@.len(),
                self.queue@.len() == old(self).queue@.len(),
                forall|j: int| 0 <= j < self.queue@.len() ==> #[trigger] self.queue@[j].id() == old(self).queue@[j].id(),
                forall|j: int| 0 <= j < i ==> !(#[trigger] self.queue@[j]).dirty(),
            decreases self.queue@.len() - i,
        {
            let ghost before = self.queue@;
            self.sync_at(i);
            proof {
                assert forall|j: int| 0 <= j < i + 1 implies !(#[trigger] self.queue@[j]).dirty() by {
                    if j < i {
                        assert(!before[j].dirty());
                    }
                }
            }
            i = i + 1;
        }
        proof {
            assert forall|b: int| 0 <= b < self.device@.len() implies self.block(b)
                == self.device@[b] by {
                if self.is_cached(b) {
                    let k = choose|k: int| 0 <= k < self.queue@.len() && self.queue@[k].id() == b;
                    self.lemma_block_at(k);
                    assert(!self.queue@[k].dirty());
                }
            }
            assert(self.view() =~= self.device@);
        }
    }

    /// Position in memory of the cache of `block_id`, loading the block from
    /// the device first when it is not cached; when all `BLOCK_CACHE_SIZE`
    /// caches are in use, the oldest one is written back and dropped.
    pub fn get(&mut self, block_id: usize) -> (idx: usize)
        requires
            old(self).wf(),
            block_id < old(self).view().len(),
        ensures
            final(self).wf(),
            final(self).view() == old(self).view(),
            idx < final(self).cached_count(),
            final(self).cached_id(idx as int) == block_id,
    {
        let mut i: usize = 0;
        while i < self.queue.len()
            invariant
                self.wf(),
                self.view() == old(self).view(),
                i <= self.queue@.len(),
                forall|j: int| 0 <= j < i ==> (#[trigger] self.queue@[j]).id() != block_id,
            decreases self.queue@.len() - i,
        {
            if self.queue[i].block_id == block_id {
                return i;
            }
            i = i + 1;
        }
        assert(!self.is_cached(block_id as int));
        if self.queue.len() == BLOCK_CACHE_SIZE {
            self.sync_at(0);
            let ghost q1 = self.queue@;
            let ghost v1 = self.view();
            proof {
                self.lemma_block_at(0);
            }
            let _evicted = self.queue.swap_remove(0);
            proof {
                let q = self.queue@;
                assert forall|j: int| 0 <= j < q.len() implies exists|k: int|
                    0 <= k < q1.len() && #[trigger] q[j] == q1[k] && (k == 0 ==> false) by {
                    if j == 0 {
                        assert(q[j] == q1[q1.len() - 1]);
                    } else {
                        assert(q[j] == q1[j]);
                    }
                }
                assert forall|a: int, b: int| 0 <= a < b < q.len() implies #[trigger] q[a].id()
                    != #[trigger] q[b].id() by {
                    if a == 0 {
                        assert(q1[b].id() != q1[q1.len() - 1].id());
                    } else {
                        assert(q1[a].id() != q1[b].id());
                    }
                }
                assert(self.wf());
                assert forall|b: int| 0 <= b < self.device@.len() implies self.block(b) == v1[b] by {
                    if self.is_cached(b) {
                        let k = choose|k: int| 0 <= k < q.len() && q[k].id() == b;
                        self.lemma_block_at(k);
                        if k == 0 {
                            lemma_block_of(q1, self.device@, q1.len() - 1);
                        }
                    } else {
                        if b == q1[0].id() {
                        } else {
                            let ghost cached1 = exists|k: int| 0 <= k < q1.len() && q1[k].id() == b;
                            if cached1 {
                                let k = choose|k: int| 0 <= k < q1.len() && q1[k].id() == b;
                                if k == q1.len() - 1 {
                                    assert(q[0].id() == b);
                                } else {
                                    assert(q[k].id() == b);
                                }
                            }
                        }
                    }
                }
                assert(self.view() =~= v1);
            }
        }
        let ghost v2 = self.view();
        let ghost q2 = self.queue@;
        assert(!self.is_cached(block_id as int));
        let c = BlockCache::new(block_id, &self.device);
        self.queue.push(c);
        proof {
            let q = self.queue@;
            assert forall|a: int, b: int| 0 <= a < b < q.len() implies #[trigger] q[a].id()
                != #[trigger] q[b].id() by {
                if b == q.len() - 1 {
                    assert(q[a] == q2[a]);
                } else {
                    assert(q2[a].id() != q2[b].id());
                }
            }
            assert(self.wf());
            assert forall|b: int| 0 <= b < self.device@.len() implies self.block(b) == v2[b] by {
                if b == block_id as int {
                    self.lemma_block_at(q.len() - 1);
                } else if self.is_cached(b) {
                    let k = choose|k: int| 0 <= k < q.len() && q[k].id() == b;
                    self.lemma_block_at(k);
                    assert(q2[k].id() == b);
                    assert(exists|k2: int| 0 <= k2 < q2.len() && q2[k2].id() == b);
                } else {
                    if exists|k2: int| 0 <= k2 < q2.len() && q2[k2].id() == b {
                        let k2 = choose|k2: int| 0 <= k2 < q2.len() && q2[k2].id() == b;
                        assert(q[k2].id() == b);
                    }
                }
            }
            assert(self.view() =~= v2);
        }
        self.queue.len() - 1
    }

    /// Read `len` bytes at `offset` of block `block_id`.
    pub fn read(&mut self, block_id: usize, offset: usize, len: usize) -> (bytes: Vec<u8>)
        requires
            old(self).wf(),
            block_id < old(self).view().len(),
            offset + len <= BLOCK_SIZE,
        ensures
            final(self).wf(),
            final(self).view() == old(self).view(),
            bytes@ == old(self).view()[block_id as int].subrange(offset as int, offset + len),
    {
        let idx = self.get(block_id);
        proof {
            self.lemma_block_at(idx as int);
        }
        self.queue[idx].read(offset, len)
    }

    /// Overwrite block `block_id` at `offset` with `data`.
    pub fn modify(&mut self, block_id: usize, offset: usize, data: &[u8])
        requires
            old(self).wf(),
            block_id < old(self).view().len(),
            offset + data@.len() <= BLOCK_SIZE,
        ensures
            final(self).wf(),
            final(self).view() == old(self).view().update(
                block_id as int,
                splice(old(self).view()[block_id as int], offset as int, data@),
            ),
    {
        let idx = self.get(block_id);
        let ghost v1 = self.view();
        let ghost q1 = self.queue@;
        proof {
            self.lemma_block_at(idx as int);
        }
        let mut c = BlockCache { cache: Vec::new(), block_id: 0, modified: false };
        self.queue.set_and_swap(idx, &mut c);
        c.modify(offset, data);
        self.queue.set_and_swap(idx, &mut c);
        proof {
            let q = self.queue@;
            assert(q == q1.update(idx as int, q[idx as int]));
            assert forall|a: int, b: int| 0 <= a < b < q.len() implies #[trigger] q[a].id()
                != #[trigger] q[b].id() by {
                assert(q1[a].id() != q1[b].id());
            }
            assert(self.wf());
            let expected = v1.update(block_id as int, splice(v1[block_id as int], offset as int, data@));
            assert forall|b: int| 0 <= b < self.device@.len() implies self.block(b) == expected[b] by {
                if b == block_id as int {
                    self.lemma_block_at(idx as int);
                } else if self.is_cached(b) {
                    let k = choose|k: int| 0 <= k < q.len() && q[k].id() == b;
                    self.lemma_block_at(k);
                    lemma_block_of(q1, self.device@, k);
                } else {
                    if queue_has(q1, b) {
                        let k = choose|k: int| 0 <= k < q1.len() && q1[k].id() == b;
                        assert(q[k].id() == b);
                    }
                }
            }
            assert(self.view() =~= expected);
        }
    }

    /// The little-endian `u32` at `offset` of block `block_id`.
    pub fn read_u32(&mut self, block_id: usize, offset: usize) -> (x: u32)
        requires
            old(self).wf(),
            block_id < old(self).view().len(),
            offset + 4 <= BLOCK_SIZE,
        ensures
            final(self).wf(),
            final(self).view() == old(self).view(),
            x == u32_at(old(self).view()[block_id as int], offset as int),
    {
        let bytes = self.read(block_id, offset, 4);
        vstd::bytes::u32_from_le_bytes(bytes.as_slice())
    }

    /// Store `x` little-endian at `offset` of block `block_id`.
    pub fn write_u32(&mut self, block_id: usize, offset: usize, x: u32)
        requires
            old(self).wf(),
            block_id < old(self).view().len(),
            offset + 4 <= BLOCK_SIZE,
        ensures
            final(self).wf(),
            final(self).view() == old(self).view().update(
                block_id as int,
                splice(old(self).view()[block_id as int], offset as int, vstd::bytes::spec_u32_to_le_bytes(x)),
            ),
            u32_at(final(self).view()[block_id as int], offset as int) == x,
    {
        let bytes = vstd::bytes::u32_to_le_bytes(x);
        proof {
            vstd::bytes::lemma_auto_spec_u32_to_from_le_bytes();
        }
        self.modify(block_id, offset, bytes.as_slice());
        proof {
            let s = splice(old(self).view()[block_id as int], offset as int, bytes@);
            assert(s.subrange(offset as int, offset + 4) =~= bytes@);
        }
    }

    /// The little-endian `u64` at `offset` of block `block_id`.
    pub fn read_u64(&mut self, block_id: usize, offset: usize) -> (x: u64)
        requires
            old(self).wf(),
            block_id < old(self).view().len(),
            offset + 8 <= BLOCK_SIZE,
        ensures
            final(self).wf(),
            final(self).view() == old(self).view(),
            x == u64_at(old(self).view()[block_id as int], offset as int),
    {
        let bytes = self.read(block_id, offset, 8);
        vstd::bytes::u64_from_le_bytes(bytes.as_slice())
    }

    /// Store `x` little-endian at `offset` of block `block_id`.
    pub fn write_u64(&mut self, block_id: usize, offset: usize, x: u64)
        requires
            old(self).wf(),
            block_id < old(self).view().len(),
            offset + 8 <= BLOCK_SIZE,
        ensures
            final(self).wf(),
            final(self).view() == old(self).view().update(
                block_id as int,
                splice(old(self).view()[block_id as int], offset as int, vstd::bytes::spec_u64_to_le_bytes(x)),
            ),
            u64_at(final(self).view()[block_id as int], offset as int) == x,
    {
        let bytes = vstd::bytes::u64_to_le_bytes(x);
        proof {
            vstd::bytes::lemma_auto_spec_u64_to_from_le_bytes();
        }
        self.modify(block_id, offset, bytes.as_slice());
        proof {
            let s = splice(old(self).view()[block_id as int], offset as int, bytes@);
            assert(s.subrange(offset as int, offset + 8) =~= bytes@);
        }
    }

    /// Write every dirty cache back and give the device up.
    pub fn into_device(self) -> (dev: BlockDevice)
        requires
            self.wf(),
        ensures
            dev.wf(),
            dev@ == self.view(),
    {
        let mut m = self;
        m.sync_all();
        m.device
    }
}

/// Whether some cache in `q` holds block `b`.
pub closed spec fn queue_has(q: Seq<BlockCache>, b: int) -> bool {
    exists|i: int| 0 <= i < q.len() && q[i].id() == b
}

/// Block `b` as seen through the caches `q` in front of `dev`.
pub closed spec fn block_of(q: Seq<BlockCache>, dev: Seq<Seq<u8>>, b: int) -> Seq<u8> {
    if queue_has(q, b) {
        let i = choose|i: int| 0 <= i < q.len() && q[i].id() == b;
        q[i].data()
    } else {
        dev[b]
    }
}

/// The caches are distinct blocks of `dev`, and clean ones agree with it.
pub closed spec fn queue_wf(q: Seq<BlockCache>, dev: Seq<Seq<u8>>) -> bool {
    &&& forall|i: int|
        0 <= i < q.len() ==> {
            &&& #[trigger] q[i].id() < dev.len()
            &&& q[i].data().len() == BLOCK_SIZE
            &&& !q[i].dirty() ==> q[i].data() == dev[q[i].id() as int]
        }
    &&& forall|i: int, j: int| 0 <= i < j < q.len() ==> #[trigger] q[i].id() != #[trigger] q[j].id()
}

proof fn lemma_block_of(q: Seq<BlockCache>, dev: Seq<Seq<u8>>, i: int)
    requires
        queue_wf(q, dev),
        0 <= i < q.len(),
    ensures
        queue_has(q, q[i].id() as int),
        block_of(q, dev, q[i].id() as int) == q[i].data(),
{
    let b = q[i].id() as int;
    assert(queue_has(q, b));
    let j = choose|j: int| 0 <= j < q.len() && q[j].id() == b;
    if j != i {
        if i < j {
            assert(q[i].id() != q[j].id());
        } else {
            assert(q[j].id() != q[i].id());
        }
    }
}

/// The little-endian `u32` stored at `offset` of `block`.
pub open spec fn u32_at(block: Seq<u8>, offset: int) -> u32 {
    vstd::bytes::spec_u32_from_le_bytes(block.subrange(offset, offset + 4))
}

/// The little-endian `u64` stored at `offset` of `block`.
pub open spec fn u64_at(block: Seq<u8>, offset: int) -> u64 {
    vstd::bytes::spec_u64_from_le_bytes(block.subrange(offset, offset + 8))
}

/// Bytes outside the spliced range keep their values.
pub proof fn lemma_splice_outside(s: Seq<u8>, offset: int, data: Seq<u8>, a: int, len: int)
    requires
        0 <= offset,
        offset + data.len() <= s.len(),
        0 <= a,
        a + len <= s.len(),
        a + len <= offset || offset + data.len() <= a,
        0 <= len,
    ensures
        splice(s, offset, data).subrange(a, a + len) == s.subrange(a, a + len),
{
    assert(splice(s, offset, data).subrange(a, a + len) =~= s.subrange(a, a + len));
}

/// Write every dirty cache of `manager` back to its device; every cache
/// stays, for the same block, and is clean.
pub fn sync_all(manager: &mut BlockCacheManager)
    requires
        old(manager).wf(),
    ensures
        final(manager).wf(),
        final(manager).view() == old(manager).view(),
        final(manager).device_view() == old(manager).view(),
        final(manager).cached_count() == old(manager).cached_count(),
        forall|i: int| 0 <= i < final(manager).cached_count() ==> #[trigger] final(manager).cached_id(i) == old(manager).cached_id(i),
        forall|i: int| 0 <= i < final(manager).cached_count() ==> !#[trigger] final(manager).cached_dirty(i),
{
    manager.sync_all();
}

} // verus!
