//! On-disk layout: super block, disk inodes and directory entries.

use vstd::prelude::*;
use super::block_cache::{splice, u32_at, BlockCacheManager};
use vstd::string::StringSliceAdditionalSpecFns;
use super::config::{
    BLOCK_SIZE, DIRECT_BOUND, DIRECT_COUNT, EFS_MAGIC, INDIRECT1_BOUND, INDIRECT1_COUNT,
    INDIRECT2_BOUND, INDIRECT2_COUNT, NAME_LENGTH_LIMIT,
};

verus! {

/// Super block of a filesystem
pub struct SuperBlock {
    pub magic: u32,
    pub total_blocks: u32,
    pub inode_bitmap_blocks: u32,
    pub inode_area_blocks: u32,
    pub data_bitmap_blocks: u32,
    pub data_area_blocks: u32,
}

impl SuperBlock {
    /// Initialize a super block
    pub fn init(
        &mut self,
        total_blocks: u32,
        inode_bitmap_blocks: u32,
        inode_area_blocks: u32,
        data_bitmap_blocks: u32,
        data_area_blocks: u32,
    )
        ensures
            final(self).magic == EFS_MAGIC,
            final(self).total_blocks == total_blocks,
            final(self).inode_bitmap_blocks == inode_bitmap_blocks,
            final(self).inode_area_blocks == inode_area_blocks,
            final(self).data_bitmap_blocks == data_bitmap_blocks,
            final(self).data_area_blocks == data_area_blocks,
    {
        *self = Self {
            magic: EFS_MAGIC,
            total_blocks,
            inode_bitmap_blocks,
            inode_area_blocks,
            data_bitmap_blocks,
            data_area_blocks,
        };
    }

    /// Check if a super block is valid using efs magic
    pub fn is_valid(&self) -> (b: bool)
        ensures
            b == (self.magic == EFS_MAGIC),
    {
        self.magic == EFS_MAGIC
    }

    /// A super block with every field zero (an unformatted disk).
    pub fn zeroed() -> (s: Self)
        ensures
            s.magic == 0,
            s.total_blocks == 0,
            s.inode_bitmap_blocks == 0,
            s.inode_area_blocks == 0,
            s.data_bitmap_blocks == 0,
            s.data_area_blocks == 0,
    {
        Self {
            magic: 0,
            total_blocks: 0,
            inode_bitmap_blocks: 0,
            inode_area_blocks: 0,
            data_bitmap_blocks: 0,
            data_area_blocks: 0,
        }
    }
}

/// The little-endian bytes of the words `a`, one after the other.
pub open spec fn words_bytes(a: Seq<u32>) -> Seq<u8> {
    Seq::new((a.len() * 4) as nat, |k: int| vstd::bytes::spec_u32_to_le_bytes(a[k / 4])[k % 4])
}

/// Appending a word appends its bytes.
proof fn lemma_words_bytes_push(a: Seq<u32>, w: u32)
    ensures
        words_bytes(a.push(w)) == words_bytes(a) + vstd::bytes::spec_u32_to_le_bytes(w),
{
    vstd::bytes::lemma_auto_spec_u32_to_from_le_bytes();
    let l = words_bytes(a.push(w));
    let r = words_bytes(a) + vstd::bytes::spec_u32_to_le_bytes(w);
    assert(vstd::bytes::spec_u32_to_le_bytes(w).len() == 4);
    assert forall|k: int| 0 <= k < l.len() implies #[trigger] l[k] == r[k] by {
        let q = k / 4;
        assert(k == q * 4 + k % 4 && 0 <= k % 4 < 4) by (nonlinear_arith)
            requires
                q == k / 4,
                0 <= k,
        ;
        if k < a.len() * 4 {
            assert(q < a.len()) by (nonlinear_arith)
                requires
                    q == k / 4,
                    k < a.len() * 4,
                    0 <= k,
            ;
            assert(a.push(w)[q] == a[q]);
        } else {
            assert(q == a.len()) by (nonlinear_arith)
                requires
                    q == k / 4,
                    a.len() * 4 <= k < a.len() * 4 + 4,
            ;
        }
    }
    assert(l =~= r);
}

/// Append the little-endian bytes of `w` to `v`
fn push_u32(v: &mut Vec<u8>, w: u32)
    ensures
        final(v)@ == old(v)@ + vstd::bytes::spec_u32_to_le_bytes(w),
{
    let b = vstd::bytes::u32_to_le_bytes(w);
    let ghost v0 = v@;
    let mut i: usize = 0;
    while i < 4
        invariant
            b@ == vstd::bytes::spec_u32_to_le_bytes(w),
            b@.len() == 4,
            i <= 4,
            v@ == v0 + b@.take(i as int),
        decreases 4 - i,
    {
        v.push(b[i]);
        i = i + 1;
        assert(v@ =~= v0 + b@.take(i as int));
    }
    assert(b@.take(4) =~= b@);
}

/// The 24 bytes of a super block on disk: its fields, in order, little endian.
pub open spec fn super_block_bytes(sb: SuperBlock) -> Seq<u8> {
    words_bytes(seq![sb.magic, sb.total_blocks, sb.inode_bitmap_blocks, sb.inode_area_blocks,
        sb.data_bitmap_blocks, sb.data_area_blocks])
}

/// The number a kind is stored as.
pub open spec fn kind_byte(kind: DiskInodeKind) -> u8 {
    match kind {
        DiskInodeKind::File => 0u8,
        DiskInodeKind::Directory => 1u8,
    }
}

/// The 124 bytes of a disk inode on disk: the kind in a byte followed by
/// three zero bytes, then the size, the direct pointers and the two indirect
/// pointers, little endian.
pub open spec fn disk_inode_bytes(d: DiskInode) -> Seq<u8> {
    seq![kind_byte(d.kind), 0u8, 0u8, 0u8] + words_bytes(seq![d.size] + d.direct@ + seq![d.indirect1, d.indirect2])
}

impl SuperBlock {
    /// The bytes of the super block on disk
    pub fn to_bytes(&self) -> (b: Vec<u8>)
        ensures
            b@ == super_block_bytes(*self),
    {
        let mut b: Vec<u8> = Vec::new();
        let ghost e = Seq::<u32>::empty();
        assert(words_bytes(e) =~= Seq::<u8>::empty());
        push_u32(&mut b, self.magic);
        proof { lemma_words_bytes_push(e, self.magic); }
        push_u32(&mut b, self.total_blocks);
        proof { lemma_words_bytes_push(e.push(self.magic), self.total_blocks); }
        push_u32(&mut b, self.inode_bitmap_blocks);
        proof { lemma_words_bytes_push(e.push(self.magic).push(self.total_blocks), self.inode_bitmap_blocks); }
        push_u32(&mut b, self.inode_area_blocks);
        proof {
            lemma_words_bytes_push(
                e.push(self.magic).push(self.total_blocks).push(self.inode_bitmap_blocks),
                self.inode_area_blocks,
            );
        }
        push_u32(&mut b, self.data_bitmap_blocks);
        proof {
            lemma_words_bytes_push(
                e.push(self.magic).push(self.total_blocks).push(self.inode_bitmap_blocks).push(self.inode_area_blocks),
                self.data_bitmap_blocks,
            );
        }
        push_u32(&mut b, self.data_area_blocks);
        proof {
            let w5 = e.push(self.magic).push(self.total_blocks).push(self.inode_bitmap_blocks).push(
                self.inode_area_blocks,
            ).push(self.data_bitmap_blocks);
            lemma_words_bytes_push(w5, self.data_area_blocks);
            assert(w5.push(self.data_area_blocks) =~= seq![self.magic, self.total_blocks, self.inode_bitmap_blocks,
                self.inode_area_blocks, self.data_bitmap_blocks, self.data_area_blocks]);
        }
        b
    }
}

impl DiskInode {
    /// The bytes of the disk inode on disk
    pub fn to_bytes(&self) -> (b: Vec<u8>)
        ensures
            b@ == disk_inode_bytes(*self),
            b@.len() == 124,
    {
        let mut b: Vec<u8> = Vec::new();
        let k: u8 = match self.kind {
            DiskInodeKind::File => 0,
            DiskInodeKind::Directory => 1,
        };
        b.push(k);
        b.push(0);
        b.push(0);
        b.push(0);
        let ghost head = seq![k, 0u8, 0u8, 0u8];
        assert(b@ =~= head);
        assert(words_bytes(Seq::<u32>::empty()) =~= Seq::<u8>::empty());
        push_u32(&mut b, self.size);
        proof { lemma_words_bytes_push(Seq::<u32>::empty(), self.size); }
        let ghost mut ws = seq![self.size];
        assert(Seq::<u32>::empty().push(self.size) =~= ws);
        let mut i: usize = 0;
        while i < DIRECT_COUNT
            invariant
                i <= DIRECT_COUNT,
                ws == seq![self.size] + self.direct@.take(i as int),
                b@ == head + words_bytes(ws),
            decreases DIRECT_COUNT - i,
        {
            let w = self.direct[i];
            push_u32(&mut b, w);
            proof {
                lemma_words_bytes_push(ws, w);
                ws = ws.push(w);
                assert(ws =~= seq![self.size] + self.direct@.take(i + 1));
            }
            i = i + 1;
        }
        push_u32(&mut b, self.indirect1);
        proof {
            lemma_words_bytes_push(ws, self.indirect1);
            ws = ws.push(self.indirect1);
        }
        push_u32(&mut b, self.indirect2);
        proof {
            lemma_words_bytes_push(ws, self.indirect2);
            ws = ws.push(self.indirect2);
            assert(self.direct@.take(DIRECT_COUNT as int) =~= self.direct@);
            assert(ws =~= seq![self.size] + self.direct@ + seq![self.indirect1, self.indirect2]);
        }
        b
    }
}

/// Type of a disk inode
#[derive(PartialEq, Eq, Structural, Clone, Copy)]
pub enum DiskInodeKind {
    File,
    Directory,
}

/// Number of data blocks a file of `size` bytes occupies.
pub open spec fn data_blocks(size: int) -> int {
    (size + BLOCK_SIZE - 1) / BLOCK_SIZE as int
}

/// Number of blocks (data and index) a file of `size` bytes occupies.
pub open spec fn total_blocks(size: int) -> int {
    let n = data_blocks(size);
    n + (if n > DIRECT_BOUND { 1int } else { 0int }) + (if n > INDIRECT1_BOUND {
        1 + min_int((n - INDIRECT1_BOUND + INDIRECT1_COUNT - 1) / INDIRECT1_COUNT as int, INDIRECT1_COUNT as int)
    } else {
        0int
    })
}

/// The smaller of two integers.
pub open spec fn min_int(a: int, b: int) -> int {
    if a <= b { a } else { b }
}

/// The `u32` entries `0..k` of the index block `b`.
pub open spec fn entries(disk: Seq<Seq<u8>>, b: u32, k: int) -> Seq<u32> {
    Seq::new(k as nat, |t: int| u32_at(disk[b as int], t * 4))
}

/// The blocks of the second level of a file with `m` blocks there, in the
/// order they are taken: each first-level index block followed by its
/// data blocks.
pub open spec fn level2(disk: Seq<Seq<u8>>, indirect2: u32, m: int) -> Seq<u32>
    decreases m,
{
    if m <= 0 {
        Seq::empty()
    } else {
        let j = (m - 1) / INDIRECT1_COUNT as int;
        let l1 = u32_at(disk[indirect2 as int], j * 4);
        level2(disk, indirect2, j * INDIRECT1_COUNT as int) + seq![l1] + entries(
            disk,
            l1,
            m - j * INDIRECT1_COUNT as int,
        )
    }
}

/// A disk inode
pub struct DiskInode {
    pub kind: DiskInodeKind,
    pub size: u32,
    pub direct: [u32; DIRECT_COUNT],
    pub indirect1: u32,
    pub indirect2: u32,
}

impl DiskInode {
    /// Number of data blocks of the inode.
    pub open spec fn nblocks(&self) -> int {
        data_blocks(self.size as int)
    }

    /// Id of the data block `i` of the inode on `disk`.
    pub open spec fn data_block(&self, disk: Seq<Seq<u8>>, i: int) -> u32 {
        if i < DIRECT_BOUND {
            self.direct@[i]
        } else if i < INDIRECT1_BOUND {
            u32_at(disk[self.indirect1 as int], (i - DIRECT_BOUND) * 4)
        } else {
            let j = i - INDIRECT1_BOUND;
            let l1 = u32_at(disk[self.indirect2 as int], (j / INDIRECT1_COUNT as int) * 4);
            u32_at(disk[l1 as int], (j % INDIRECT1_COUNT as int) * 4)
        }
    }

    /// The index blocks needed to find data block `i` lie on `disk`.
    pub open spec fn reaches(&self, disk: Seq<Seq<u8>>, i: int) -> bool {
        &&& i >= DIRECT_BOUND ==> self.indirect1 < disk.len() || i >= INDIRECT1_BOUND
        &&& i >= INDIRECT1_BOUND ==> {
            &&& self.indirect2 < disk.len()
            &&& u32_at(disk[self.indirect2 as int], ((i - INDIRECT1_BOUND) / INDIRECT1_COUNT as int) * 4) < disk.len()
        }
    }

    /// Every block the inode owns, data and index, in the order they are
    /// taken when the inode grows to `n` data blocks.
    pub open spec fn owned(&self, disk: Seq<Seq<u8>>, n: int) -> Seq<u32> {
        self.direct@.subrange(0, min_int(n, DIRECT_COUNT as int)) + (if n > DIRECT_BOUND {
            seq![self.indirect1] + entries(disk, self.indirect1, min_int(n - DIRECT_BOUND, INDIRECT1_COUNT as int))
        } else {
            Seq::empty()
        }) + (if n > INDIRECT1_BOUND {
            seq![self.indirect2] + level2(disk, self.indirect2, n - INDIRECT1_BOUND)
        } else {
            Seq::empty()
        })
    }

    /// Initialize a disk inode
    pub fn init(&mut self, kind: DiskInodeKind)
        ensures
            final(self).kind == kind,
            final(self).size == 0,
            forall|i: int| 0 <= i < DIRECT_COUNT ==> #[trigger] final(self).direct@[i] == 0,
            final(self).indirect1 == 0,
            final(self).indirect2 == 0,
    {
        self.kind = kind;
        self.size = 0;
        self.direct = [0u32; DIRECT_COUNT];
        self.indirect1 = 0;
        self.indirect2 = 0;
    }

    /// A fresh inode of the given kind
    pub fn new(kind: DiskInodeKind) -> (d: Self)
        ensures
            d.kind == kind,
            d.size == 0,
            forall|i: int| 0 <= i < DIRECT_COUNT ==> #[trigger] d.direct@[i] == 0,
            d.indirect1 == 0,
            d.indirect2 == 0,
    {
        DiskInode { kind, size: 0, direct: [0u32; DIRECT_COUNT], indirect1: 0, indirect2: 0 }
    }

    /// Whether this inode is a directory
    pub fn is_dir(&self) -> (b: bool)
        ensures
            b == (self.kind == DiskInodeKind::Directory),
    {
        self.kind == DiskInodeKind::Directory
    }

    /// Whether this inode is a file
    pub fn is_file(&self) -> (b: bool)
        ensures
            b == (self.kind == DiskInodeKind::File),
    {
        self.kind == DiskInodeKind::File
    }

    /// Number of data blocks of a file of `size` bytes
    pub fn count_data_block(size: u32) -> (n: u32)
        ensures
            n == data_blocks(size as int),
    {
        size / (BLOCK_SIZE as u32) + if size % (BLOCK_SIZE as u32) == 0 { 0 } else { 1 }
    }

    /// Return number of blocks needed include indirect1/2.
    pub fn count_total_block(size: u32) -> (n: u32)
        ensures
            n == total_blocks(size as int),
    {
        let data_blocks = Self::count_data_block(size) as usize;
        let mut total = Self::count_data_block(size) as usize;
        // indirect1
        if data_blocks > DIRECT_BOUND {
            total += 1;
        }
        // indirect2
        if data_blocks > INDIRECT1_BOUND {
            total += 1;
            let remaining = data_blocks - INDIRECT1_BOUND;
            let indirect1_needed = remaining / INDIRECT1_COUNT + if remaining % INDIRECT1_COUNT == 0 { 0 } else { 1 };
            total += if indirect1_needed < INDIRECT1_COUNT { indirect1_needed } else { INDIRECT1_COUNT };
        }
        total as u32
    }

    /// Get the number of data blocks that have to be allocated given the new size of data
    pub fn blocks_num_needed(&self, new_size: u32) -> (n: u32)
        requires
            new_size >= self.size,
        ensures
            n == total_blocks(new_size as int) - total_blocks(self.size as int),
    {
        proof {
            lemma_total_blocks_monotonic(self.size as int, new_size as int);
        }
        Self::count_total_block(new_size) - Self::count_total_block(self.size)
    }

    /// Get id of block given inner id
    pub fn block_id(&self, block_index: u32, block_device: &mut BlockCacheManager) -> (id: u32)
        requires
            old(block_device).wf(),
            block_index < INDIRECT2_BOUND,
            self.reaches(old(block_device).view(), block_index as int),
        ensures
            final(block_device).wf(),
            final(block_device).view() == old(block_device).view(),
            id == self.data_block(old(block_device).view(), block_index as int),
    {
        let block_index = block_index as usize;
        if block_index < DIRECT_BOUND {
            self.direct[block_index]
        } else if block_index < INDIRECT1_BOUND {
            block_device.read_u32(self.indirect1 as usize, (block_index - DIRECT_BOUND) * 4)
        } else {
            let index = block_index - INDIRECT1_BOUND;
            let indirect1 = block_device.read_u32(self.indirect2 as usize, (index / INDIRECT1_COUNT) * 4);
            block_device.read_u32(indirect1 as usize, (index % INDIRECT1_COUNT) * 4)
        }
    }
}

impl DiskInode {
    /// Byte `k` of the file on `disk`.
    pub open spec fn file_byte(&self, disk: Seq<Seq<u8>>, k: int) -> u8 {
        disk[self.data_block(disk, k / BLOCK_SIZE as int) as int][k % BLOCK_SIZE as int]
    }

    /// Every data block of the inode can be found and lies on `disk`.
    pub open spec fn readable(&self, disk: Seq<Seq<u8>>) -> bool {
        &&& self.nblocks() <= INDIRECT2_BOUND
        &&& forall|i: int| 0 <= i < self.nblocks() ==> #[trigger] self.reaches(disk, i)
        &&& forall|i: int| 0 <= i < self.nblocks() ==> #[trigger] self.data_block(disk, i) < disk.len()
    }

    /// Read data from current disk inode
    pub fn read_at(&self, offset: usize, buf: &mut [u8], block_device: &mut BlockCacheManager) -> (n: usize)
        requires
            old(block_device).wf(),
            self.readable(old(block_device).view()),
            offset + old(buf)@.len() <= usize::MAX,
        ensures
            final(block_device).wf(),
            final(block_device).view() == old(block_device).view(),
            n == (if offset < self.size && old(buf)@.len() > 0 {
                min_int(offset + old(buf)@.len(), self.size as int) - offset
            } else {
                0
            }),
            final(buf)@.len() == old(buf)@.len(),
            forall|k: int| 0 <= k < n ==> #[trigger] final(buf)@[k] == self.file_byte(old(block_device).view(), offset + k),
            forall|k: int| n <= k < final(buf)@.len() ==> #[trigger] final(buf)@[k] == old(buf)@[k],
    {
        let ghost disk = block_device.view();
        let mut start = offset;
        let end = if offset + buf.len() < self.size as usize { offset + buf.len() } else { self.size as usize };
        if start >= end {
            return 0;
        }
        let mut start_block = start / BLOCK_SIZE;
        let mut read_size = 0usize;
        proof {
            block_device.lemma_wf();
        }
        loop
            invariant_except_break
                offset <= start < end,
                start == offset + read_size,
                start_block == start / BLOCK_SIZE,
            invariant
                block_device.wf(),
                block_device.view() == disk,
                disk == old(block_device).view(),
                self.readable(disk),
                forall|b: int| 0 <= b < disk.len() ==> (#[trigger] disk[b]).len() == BLOCK_SIZE,
                end <= self.size,
                end <= offset + buf@.len(),
                offset + old(buf)@.len() <= usize::MAX,
                buf@.len() == old(buf)@.len(),
                forall|k: int| 0 <= k < read_size ==> #[trigger] buf@[k] == self.file_byte(disk, offset + k),
                forall|k: int| read_size <= k < buf@.len() ==> #[trigger] buf@[k] == old(buf)@[k],
            ensures
                read_size == end - offset,
                buf@.len() == old(buf)@.len(),
                block_device.wf(),
                block_device.view() == disk,
                forall|k: int| 0 <= k < read_size ==> #[trigger] buf@[k] == self.file_byte(disk, offset + k),
                forall|k: int| read_size <= k < buf@.len() ==> #[trigger] buf@[k] == old(buf)@[k],
            decreases end - start,
        {
            // calculate end of current block
            let mut end_current_block = (start / BLOCK_SIZE + 1) * BLOCK_SIZE;
            if end < end_current_block {
                end_current_block = end;
            }
            let block_read_size = end_current_block - start;
            proof {
                assert(start_block < self.nblocks()) by (nonlinear_arith)
                    requires start_block == start / 512, start < end, end <= self.size, self.nblocks() == (self.size + 511) / 512;
                assert(start % 512 + block_read_size <= 512) by (nonlinear_arith)
                    requires end_current_block <= (start / 512 + 1) * 512, block_read_size == end_current_block - start;
            }
            let blk = self.block_id(start_block as u32, block_device);
            let data = block_device.read(blk as usize, start % BLOCK_SIZE, block_read_size);
            assert(disk[blk as int].len() == BLOCK_SIZE);
            let mut i: usize = 0;
            while i < block_read_size
                invariant
                    i <= block_read_size,
                    data@ == disk[blk as int].subrange((start % 512) as int, (start % 512) + block_read_size),
                    data@.len() == block_read_size,
                    read_size + block_read_size <= buf@.len(),
                    offset + old(buf)@.len() <= usize::MAX,
                    buf@.len() == old(buf)@.len(),
                    blk == self.data_block(disk, start_block as int),
                    forall|k: int| 0 <= k < read_size ==> #[trigger] buf@[k] == self.file_byte(disk, offset + k),
                    forall|k: int| read_size <= k < read_size + i ==> #[trigger] buf@[k] == data@[k - read_size],
                    forall|k: int| read_size + i <= k < buf@.len() ==> #[trigger] buf@[k] == old(buf)@[k],
                decreases block_read_size - i,
            {
                buf[read_size + i] = data[i];
                i = i + 1;
            }
            proof {
                assert forall|k: int| read_size <= k < read_size + block_read_size implies #[trigger] buf@[k]
                    == self.file_byte(disk, offset + k) by {
                    let p = offset + k;
                    assert(p / 512 == start_block && p % 512 == start % 512 + (k - read_size)) by (nonlinear_arith)
                        requires p == start + (k - read_size), 0 <= k - read_size < block_read_size,
                        start_block == start / 512, start % 512 + block_read_size <= 512;
                }
            }
            read_size += block_read_size;
            // move to next block
            if end_current_block == end {
                break;
            }
            proof {
                assert(end_current_block == (start_block + 1) * 512);
                assert((start_block + 1) * 512 / 512 == start_block + 1) by (nonlinear_arith);
            }
            start_block += 1;
            start = end_current_block;
        }
        read_size
    }
}

impl DiskInode {
    /// Whether block `b` is the index block through which data block `i`
    /// is found.
    pub open spec fn index_block_of(&self, disk: Seq<Seq<u8>>, i: int, b: int) -> bool {
        ||| (DIRECT_BOUND <= i < INDIRECT1_BOUND && b == self.indirect1)
        ||| (i >= INDIRECT1_BOUND && b == self.indirect2)
        ||| (i >= INDIRECT1_BOUND && b == u32_at(disk[self.indirect2 as int], ((i - INDIRECT1_BOUND) / INDIRECT1_COUNT as int) * 4))
    }

    /// The data blocks of the inode are pairwise distinct and none of them
    /// is an index block of the inode.
    pub open spec fn distinct_blocks(&self, disk: Seq<Seq<u8>>) -> bool {
        &&& forall|i: int, j: int| 0 <= i < j < self.nblocks() ==>
            #[trigger] self.data_block(disk, i) != #[trigger] self.data_block(disk, j)
        &&& forall|i: int, j: int| 0 <= i < self.nblocks() && 0 <= j < self.nblocks() ==>
            !#[trigger] self.index_block_of(disk, j, #[trigger] self.data_block(disk, i) as int)
    }

    /// Data block `i` can be found and lies on `disk`.
    pub open spec fn has_block(&self, disk: Seq<Seq<u8>>, i: int) -> bool {
        &&& 0 <= i < INDIRECT2_BOUND
        &&& self.reaches(disk, i)
        &&& self.data_block(disk, i) < disk.len()
    }

    /// Whether `b` is one of the data blocks of the inode.
    pub open spec fn is_data_block(&self, disk: Seq<Seq<u8>>, b: int) -> bool {
        exists|i: int| 0 <= i < self.nblocks() && self.data_block(disk, i) == b
    }

    /// What `write_at` writes is read back: after a write that kept every
    /// block but the data blocks and changed the file's bytes as `write_at`
    /// says, the inode can still be read, the `n` bytes from `offset` are
    /// those written, and the other bytes are those from before.
    pub proof fn lemma_read_back(&self, d0: Seq<Seq<u8>>, d1: Seq<Seq<u8>>, offset: int, buf: Seq<u8>, n: int)
        requires
            self.readable(d0),
            self.distinct_blocks(d0),
            d1.len() == d0.len(),
            0 <= offset <= self.size,
            n == min_int(offset + buf.len(), self.size as int) - offset,
            forall|b: int| 0 <= b < d0.len() && !self.is_data_block(d0, b) ==> #[trigger] d1[b] == d0[b],
            forall|k: int| 0 <= k < self.size ==> #[trigger] self.file_byte(d1, k)
                == (if offset <= k < offset + n { buf[k - offset] } else { self.file_byte(d0, k) }),
        ensures
            self.readable(d1),
            forall|k: int| 0 <= k < n ==> #[trigger] self.file_byte(d1, offset + k) == buf[k],
            forall|k: int| 0 <= k < self.size && !(offset <= k < offset + n) ==> #[trigger] self.file_byte(d1, k)
                == self.file_byte(d0, k),
    {
        self.lemma_same_mapping(d0, d1);
        assert forall|i: int| 0 <= i < self.nblocks() implies #[trigger] self.data_block(d1, i) < d1.len() by {
            assert(self.data_block(d0, i) < d0.len());
        }
        assert forall|k: int| 0 <= k < n implies #[trigger] self.file_byte(d1, offset + k) == buf[k] by {
            assert(self.file_byte(d1, offset + k) == buf[offset + k - offset]);
        }
    }

    /// When only data blocks changed, every data block is found where it
    /// was.
    proof fn lemma_same_mapping(&self, d0: Seq<Seq<u8>>, d1: Seq<Seq<u8>>)
        requires
            self.readable(d0),
            self.distinct_blocks(d0),
            d0.len() == d1.len(),
            forall|b: int| 0 <= b < d0.len() && !self.is_data_block(d0, b) ==> #[trigger] d1[b] == d0[b],
        ensures
            forall|i: int| 0 <= i < self.nblocks() ==> #[trigger] self.data_block(d1, i) == self.data_block(d0, i),
            forall|i: int| 0 <= i < self.nblocks() ==> #[trigger] self.reaches(d1, i),
    {
        assert forall|i: int| 0 <= i < self.nblocks() implies #[trigger] self.reaches(d1, i) by {
            assert(self.reaches(d0, i));
            if i >= DIRECT_BOUND && i < INDIRECT1_BOUND {
                let b = self.indirect1 as int;
                if self.is_data_block(d0, b) {
                    let k = choose|k: int| 0 <= k < self.nblocks() && self.data_block(d0, k) == b;
                    assert(self.index_block_of(d0, i, self.data_block(d0, k) as int));
                }
            } else if i >= INDIRECT1_BOUND {
                let b2 = self.indirect2 as int;
                if self.is_data_block(d0, b2) {
                    let k = choose|k: int| 0 <= k < self.nblocks() && self.data_block(d0, k) == b2;
                    assert(self.index_block_of(d0, i, self.data_block(d0, k) as int));
                }
                let l1 = u32_at(d0[b2], ((i - INDIRECT1_BOUND) / INDIRECT1_COUNT as int) * 4) as int;
                if self.is_data_block(d0, l1) {
                    let k = choose|k: int| 0 <= k < self.nblocks() && self.data_block(d0, k) == l1;
                    assert(self.index_block_of(d0, i, self.data_block(d0, k) as int));
                }
            }
        }
        assert forall|i: int| 0 <= i < self.nblocks() implies #[trigger] self.data_block(d1, i) == self.data_block(d0, i) by {
            assert(self.reaches(d0, i));
            if i >= DIRECT_BOUND && i < INDIRECT1_BOUND {
                let b = self.indirect1 as int;
                if self.is_data_block(d0, b) {
                    let k = choose|k: int| 0 <= k < self.nblocks() && self.data_block(d0, k) == b;
                    assert(self.index_block_of(d0, i, self.data_block(d0, k) as int));
                }
            } else if i >= INDIRECT1_BOUND {
                let b2 = self.indirect2 as int;
                if self.is_data_block(d0, b2) {
                    let k = choose|k: int| 0 <= k < self.nblocks() && self.data_block(d0, k) == b2;
                    assert(self.index_block_of(d0, i, self.data_block(d0, k) as int));
                }
                let l1 = u32_at(d0[b2], ((i - INDIRECT1_BOUND) / INDIRECT1_COUNT as int) * 4) as int;
                if self.is_data_block(d0, l1) {
                    let k = choose|k: int| 0 <= k < self.nblocks() && self.data_block(d0, k) == l1;
                    assert(self.index_block_of(d0, i, self.data_block(d0, k) as int));
                }
            }
        }
    }

    /// Write data into current disk inode; the size must be adjusted
    /// beforehand, only bytes below the size are written
    pub fn write_at(&mut self, offset: usize, buf: &[u8], block_device: &mut BlockCacheManager) -> (n: usize)
        requires
            old(block_device).wf(),
            old(self).readable(old(block_device).view()),
            old(self).distinct_blocks(old(block_device).view()),
            offset <= old(self).size,
            offset + buf@.len() <= usize::MAX,
            old(self).has_block(old(block_device).view(), (offset / BLOCK_SIZE) as int),
        ensures
            *final(self) == *old(self),
            final(block_device).wf(),
            final(block_device).view().len() == old(block_device).view().len(),
            n == min_int(offset + buf@.len(), old(self).size as int) - offset,
            forall|b: int| 0 <= b < old(block_device).view().len() && !old(self).is_data_block(old(block_device).view(), b)
                ==> #[trigger] final(block_device).view()[b] == old(block_device).view()[b],
            forall|i: int| 0 <= i < old(self).nblocks() ==>
                #[trigger] old(self).data_block(final(block_device).view(), i) == old(self).data_block(old(block_device).view(), i),
            forall|k: int| 0 <= k < old(self).size ==> #[trigger] old(self).file_byte(final(block_device).view(), k)
                == (if offset <= k < offset + n { buf@[k - offset] } else { old(self).file_byte(old(block_device).view(), k) }),
    {
        let ghost d0 = block_device.view();
        proof {
            block_device.lemma_wf();
        }
        let mut start = offset;
        let end = if offset + buf.len() < self.size as usize { offset + buf.len() } else { self.size as usize };
        let mut start_block = start / BLOCK_SIZE;
        let mut write_size = 0usize;
        loop
            invariant_except_break
                offset <= start <= end,
                start == offset + write_size,
                start_block == start / BLOCK_SIZE,
                start < end || start == offset,
            invariant
                write_size == 0 ==> block_device.view() == d0,
                *self == *old(self),
                block_device.wf(),
                d0 == old(block_device).view(),
                self.readable(d0),
                self.distinct_blocks(d0),
                self.has_block(d0, (offset / BLOCK_SIZE) as int),
                forall|b: int| 0 <= b < d0.len() ==> (#[trigger] d0[b]).len() == BLOCK_SIZE,
                block_device.view().len() == d0.len(),
                end <= self.size,
                end == min_int(offset + buf@.len(), self.size as int),
                offset + buf@.len() <= usize::MAX,
                forall|b: int| 0 <= b < d0.len() && !self.is_data_block(d0, b) ==> #[trigger] block_device.view()[b] == d0[b],
                forall|b: int| 0 <= b < d0.len() ==> (#[trigger] block_device.view()[b]).len() == BLOCK_SIZE,
                forall|k: int| 0 <= k < self.size ==> #[trigger] self.file_byte(block_device.view(), k)
                    == (if offset <= k < offset + write_size { buf@[k - offset] } else { self.file_byte(d0, k) }),
            ensures
                *self == *old(self),
                block_device.wf(),
                block_device.view().len() == d0.len(),
                write_size == end - offset,
                forall|b: int| 0 <= b < d0.len() && !self.is_data_block(d0, b) ==> #[trigger] block_device.view()[b] == d0[b],
                forall|k: int| 0 <= k < self.size ==> #[trigger] self.file_byte(block_device.view(), k)
                    == (if offset <= k < offset + write_size { buf@[k - offset] } else { self.file_byte(d0, k) }),
            decreases end - start,
        {
            let ghost cur = block_device.view();
            // calculate end of current block
            let mut end_current_block = (start / BLOCK_SIZE + 1) * BLOCK_SIZE;
            if end < end_current_block {
                end_current_block = end;
            }
            let block_write_size = end_current_block - start;
            proof {
                assert(start % 512 + block_write_size <= 512) by (nonlinear_arith)
                    requires end_current_block <= (start / 512 + 1) * 512, block_write_size == end_current_block - start,
                    start <= end_current_block;
                self.lemma_same_mapping(d0, cur);
                if start < end {
                    assert(start_block < self.nblocks()) by (nonlinear_arith)
                        requires start_block == start / 512, start < end, end <= self.size, self.nblocks() == (self.size + 511) / 512;
                    assert(self.has_block(d0, start_block as int));
                } else {
                    assert(start == offset);
                }
                if start_block >= self.nblocks() {
                    // nothing is written: the data end at `offset`
                    assert(start == offset);
                    assert(cur == d0);
                }
                assert(self.reaches(cur, start_block as int));
                assert(self.data_block(cur, start_block as int) == self.data_block(d0, start_block as int));
            }
            let blk = self.block_id(start_block as u32, block_device);
            let src: &[u8] = &buf[write_size..write_size + block_write_size];
            block_device.modify(blk as usize, start % BLOCK_SIZE, src);
            proof {
                let nd = block_device.view();
                if block_write_size == 0 {
                    assert(splice(cur[blk as int], (start % 512) as int, src@) =~= cur[blk as int]);
                    assert(nd =~= cur);
                }
                assert(blk < d0.len());
                assert forall|b: int| 0 <= b < d0.len() && !self.is_data_block(d0, b) implies #[trigger] nd[b] == d0[b] by {
                    if b == blk as int && block_write_size > 0 {
                        assert(self.data_block(d0, start_block as int) == blk);
                    } else if b == blk as int {
                        assert(nd[b] =~= cur[b]);
                    }
                }
                self.lemma_same_mapping(d0, nd);
                assert forall|k: int| 0 <= k < self.size implies #[trigger] self.file_byte(nd, k)
                    == (if offset <= k < offset + write_size + block_write_size { buf@[k - offset] } else { self.file_byte(d0, k) }) by {
                    let kb = k / 512;
                    assert(0 <= kb < self.nblocks()) by (nonlinear_arith)
                        requires 0 <= k < self.size, kb == k / 512, self.nblocks() == (self.size + 511) / 512;
                    let db = self.data_block(d0, kb);
                    assert(self.data_block(nd, kb) == db);
                    assert(self.data_block(cur, kb) == db);
                    assert(self.file_byte(nd, k) == nd[db as int][k % 512]);
                    assert(self.file_byte(cur, k) == cur[db as int][k % 512]);
                    if start <= k < start + block_write_size {
                        assert(kb == start_block && k % 512 == start % 512 + (k - start)) by (nonlinear_arith)
                            requires start <= k < start + block_write_size, start_block == start / 512,
                            start % 512 + block_write_size <= 512, kb == k / 512;
                        assert(db == blk);
                        assert(nd[db as int] == splice(cur[blk as int], (start % 512) as int, src@));
                        assert(src@[k - start] == buf@[k - offset]);
                    } else if kb == start_block {
                        assert(k % 512 < start % 512 || k % 512 >= start % 512 + block_write_size) by (nonlinear_arith)
                            requires !(start <= k < start + block_write_size), kb == start_block, start_block == start / 512,
                            kb == k / 512, start % 512 + block_write_size <= 512;
                        assert(db == blk);
                        assert(nd[db as int][k % 512] == cur[db as int][k % 512]);
                    } else if block_write_size == 0 {
                    } else {
                        assert(start_block < self.nblocks()) by (nonlinear_arith)
                            requires start_block == start / 512, start < end, end <= self.size, self.nblocks() == (self.size + 511) / 512;
                        if kb < start_block {
                            assert(self.data_block(d0, kb) != self.data_block(d0, start_block as int));
                        } else {
                            assert(self.data_block(d0, start_block as int) != self.data_block(d0, kb));
                        }
                        assert(nd[db as int] == cur[db as int]);
                    }
                }
            }
            write_size += block_write_size;
            // move to next block
            if end_current_block == end {
                break;
            }
            proof {
                assert(end_current_block == (start_block + 1) * 512);
                assert((start_block + 1) * 512 / 512 == start_block + 1) by (nonlinear_arith);
            }
            start_block += 1;
            start = end_current_block;
        }
        proof {
            self.lemma_same_mapping(d0, block_device.view());
        }
        write_size
    }
}

/// The second level of `m` blocks, grown by one more group of `r` blocks
/// under the first-level block at position `j`.
pub proof fn lemma_level2_step(disk: Seq<Seq<u8>>, indirect2: u32, j: int, r: int)
    requires
        0 <= j,
        1 <= r <= 128,
    ensures
        level2(disk, indirect2, j * 128 + r) == level2(disk, indirect2, j * 128) + seq![
            u32_at(disk[indirect2 as int], j * 4),
        ] + entries(disk, u32_at(disk[indirect2 as int], j * 4), r),
{
    let m = j * 128 + r;
    assert((m - 1) / 128 == j) by (nonlinear_arith)
        requires m == j * 128 + r, 1 <= r <= 128;
    assert(m - j * 128 == r);
}

/// A copy of the `u32` entries `0..k` of index block `b`, appended to `v`.
fn push_entries(v: &mut Vec<u32>, b: u32, k: usize, block_device: &mut BlockCacheManager)
    requires
        old(block_device).wf(),
        b < old(block_device).view().len(),
        k <= 128,
    ensures
        final(block_device).wf(),
        final(block_device).view() == old(block_device).view(),
        final(v)@ == old(v)@ + entries(old(block_device).view(), b, k as int),
{
    let ghost v0 = v@;
    let mut t: usize = 0;
    while t < k
        invariant
            block_device.wf(),
            block_device.view() == old(block_device).view(),
            b < block_device.view().len(),
            t <= k <= 128,
            v@ == v0 + entries(old(block_device).view(), b, t as int),
        decreases k - t,
    {
        let x = block_device.read_u32(b as usize, t * 4);
        v.push(x);
        t = t + 1;
        assert(v@ =~= v0 + entries(old(block_device).view(), b, t as int));
    }
}

/// The blocks of a second level of `m` blocks, appended to `v`: each
/// first-level index block followed by its entries.
fn push_level2(v: &mut Vec<u32>, ind2: u32, m: usize, block_device: &mut BlockCacheManager)
    requires
        old(block_device).wf(),
        ind2 < old(block_device).view().len(),
        m <= INDIRECT2_COUNT,
        forall|j: int| 0 <= j && j * 128 < m ==> #[trigger] u32_at(old(block_device).view()[ind2 as int], j * 4)
            < old(block_device).view().len(),
    ensures
        final(block_device).wf(),
        final(block_device).view() == old(block_device).view(),
        final(v)@ == old(v)@ + level2(old(block_device).view(), ind2, m as int),
{
    let ghost disk = block_device.view();
    let ghost prefix = v@;
    let index2 = m / INDIRECT1_COUNT;
    let index1 = m % INDIRECT1_COUNT;
    let mut j: usize = 0;
    while j < index2
        invariant
            block_device.wf(),
            block_device.view() == disk,
            disk == old(block_device).view(),
            ind2 < disk.len(),
            forall|jj: int| 0 <= jj && jj * 128 < m ==> #[trigger] u32_at(disk[ind2 as int], jj * 4) < disk.len(),
            m <= INDIRECT2_COUNT,
            index2 == m / 128,
            j <= index2,
            v@ == prefix + level2(disk, ind2, j * 128),
        decreases index2 - j,
    {
        let ptr = block_device.read_u32(ind2 as usize, j * 4);
        proof {
            assert(j * 128 < m) by (nonlinear_arith)
                requires j < index2, index2 == m / 128;
            lemma_level2_step(disk, ind2, j as int, 128);
        }
        v.push(ptr);
        push_entries(v, ptr, 128, block_device);
        j = j + 1;
        assert(v@ =~= prefix + level2(disk, ind2, j * 128));
    }
    proof {
        assert(m == index2 * 128 + index1) by (nonlinear_arith)
            requires index2 == m / 128, index1 == m % 128;
    }
    if index1 > 0 {
        let ptr = block_device.read_u32(ind2 as usize, index2 * 4);
        proof {
            lemma_level2_step(disk, ind2, index2 as int, index1 as int);
        }
        v.push(ptr);
        push_entries(v, ptr, index1, block_device);
        assert(v@ =~= prefix + level2(disk, ind2, m as int));
    }
}

impl DiskInode {
    /// The index blocks the inode uses lie on `disk`.
    pub open spec fn index_ok(&self, disk: Seq<Seq<u8>>) -> bool {
        &&& self.nblocks() <= INDIRECT2_BOUND
        &&& self.nblocks() > DIRECT_BOUND ==> self.indirect1 < disk.len()
        &&& self.nblocks() > INDIRECT1_BOUND ==> self.indirect2 < disk.len()
        &&& forall|j: int| 0 <= j && INDIRECT1_BOUND + j * 128 < self.nblocks() ==>
            #[trigger] u32_at(disk[self.indirect2 as int], j * 4) < disk.len()
    }

    /// Clear size to zero and return blocks that should be deallocated.
    /// We will clear the block contents to zero later.
    pub fn clear_size(&mut self, block_device: &mut BlockCacheManager) -> (v: Vec<u32>)
        requires
            old(block_device).wf(),
            old(self).index_ok(old(block_device).view()),
        ensures
            final(block_device).wf(),
            final(block_device).view() == old(block_device).view(),
            v@ == old(self).owned(old(block_device).view(), old(self).nblocks()),
            final(self).kind == old(self).kind,
            final(self).size == 0,
            forall|i: int| 0 <= i < DIRECT_COUNT ==> #[trigger] final(self).direct@[i] == 0,
            final(self).indirect1 == (if old(self).nblocks() > DIRECT_BOUND { 0 } else { old(self).indirect1 }),
            final(self).indirect2 == (if old(self).nblocks() > INDIRECT1_BOUND { 0 } else { old(self).indirect2 }),
    {
        let ghost disk = block_device.view();
        let ghost n = old(self).nblocks();
        let ghost s0 = *old(self);
        let mut drop_data_blocks: Vec<u32> = Vec::new();
        let mut data_blocks = Self::count_data_block(self.size) as usize;
        self.size = 0;

        // -------------------- Direct Blocks --------------------
        let k = if data_blocks < DIRECT_COUNT { data_blocks } else { DIRECT_COUNT };
        let mut i: usize = 0;
        while i < k
            invariant
                i <= k <= DIRECT_COUNT,
                self.direct == s0.direct,
                drop_data_blocks@ == s0.direct@.subrange(0, i as int),
            decreases k - i,
        {
            drop_data_blocks.push(self.direct[i]);
            i = i + 1;
            assert(drop_data_blocks@ =~= s0.direct@.subrange(0, i as int));
        }
        self.direct = [0u32; DIRECT_COUNT];
        // ----------------- End of Direct Blocks ----------------

        if data_blocks <= DIRECT_COUNT {
            assert(drop_data_blocks@ =~= s0.owned(disk, n));
            return drop_data_blocks;
        }

        // -------------------- Indirect Level 1 -----------------
        drop_data_blocks.push(self.indirect1);
        data_blocks -= DIRECT_COUNT;
        let k1 = if data_blocks < INDIRECT1_COUNT { data_blocks } else { INDIRECT1_COUNT };
        push_entries(&mut drop_data_blocks, self.indirect1, k1, block_device);
        self.indirect1 = 0;
        // ----------------- End of Indirect Level 1 ------------

        if data_blocks <= INDIRECT1_COUNT {
            assert(drop_data_blocks@ =~= s0.owned(disk, n));
            return drop_data_blocks;
        }

        // -------------------- Indirect Level 2 -----------------
        let ghost prefix = drop_data_blocks@;
        drop_data_blocks.push(self.indirect2);
        data_blocks -= INDIRECT1_COUNT;

        proof {
            assert forall|j: int| 0 <= j && j * 128 < data_blocks implies #[trigger] u32_at(disk[s0.indirect2 as int], j * 4) < disk.len() by {
                assert(INDIRECT1_BOUND + j * 128 < n);
            }
        }
        push_level2(&mut drop_data_blocks, self.indirect2, data_blocks, block_device);
        assert(drop_data_blocks@ =~= s0.owned(disk, n));
        self.indirect2 = 0;
        // ----------------- End of Indirect Level 2 ------------
        drop_data_blocks
    }
}

impl DiskInode {
    /// Decrease the size; returns the direct data blocks released by it
    pub fn decrease_size(&mut self, new_size: u32, block_device: &mut BlockCacheManager) -> (v: Vec<u32>)
        requires
            old(block_device).wf(),
            new_size <= old(self).size,
            old(self).index_ok(old(block_device).view()),
        ensures
            final(block_device).wf(),
            final(block_device).view() == old(block_device).view(),
            final(self).size == new_size,
            final(self).kind == old(self).kind,
            final(self).indirect1 == old(self).indirect1,
            final(self).indirect2 == old(self).indirect2,
            ({
                let lo = data_blocks(new_size as int);
                let hi = min_int(old(self).nblocks(), DIRECT_COUNT as int);
                &&& v@ == (if lo < hi { old(self).direct@.subrange(lo, hi) } else { Seq::empty() })
                &&& forall|i: int| 0 <= i < DIRECT_COUNT ==> #[trigger] final(self).direct@[i]
                    == (if lo <= i < hi { 0u32 } else { old(self).direct@[i] })
            }),
    {
        let ghost s0 = *old(self);
        let mut drop_data_blocks: Vec<u32> = Vec::new();
        let mut block_index = Self::count_data_block(self.size) as usize;
        self.size = new_size;
        let mut recycled_blocks = Self::count_data_block(self.size) as usize;
        let ghost lo = recycled_blocks as int;
        proof {
            assert(data_blocks(new_size as int) <= data_blocks(s0.size as int)) by (nonlinear_arith)
                requires new_size <= s0.size;
        }

        // -------------------- Direct Blocks --------------------
        let direct_recycle_count = if block_index < DIRECT_COUNT { block_index } else { DIRECT_COUNT };
        while recycled_blocks < direct_recycle_count
            invariant
                recycled_blocks == lo || lo < recycled_blocks <= direct_recycle_count,
                0 <= lo,
                lo == data_blocks(new_size as int),
                lo <= block_index,
                direct_recycle_count <= DIRECT_COUNT,
                direct_recycle_count == min_int(block_index as int, DIRECT_COUNT as int),
                block_index == s0.nblocks(),
                self.size == new_size,
                self.kind == s0.kind,
                self.indirect1 == s0.indirect1,
                self.indirect2 == s0.indirect2,
                drop_data_blocks@ == (if lo < recycled_blocks { s0.direct@.subrange(lo, recycled_blocks as int) } else { Seq::empty() }),
                forall|i: int| 0 <= i < DIRECT_COUNT ==> #[trigger] self.direct@[i]
                    == (if lo <= i < recycled_blocks { 0u32 } else { s0.direct@[i] }),
            decreases direct_recycle_count - recycled_blocks,
        {
            let x = self.direct[recycled_blocks];
            proof {
                assert(s0.direct@.len() == DIRECT_COUNT);
                assert(x == s0.direct@[recycled_blocks as int]);
            }
            let ghost before = drop_data_blocks@;
            drop_data_blocks.push(x);
            self.direct[recycled_blocks] = 0;
            recycled_blocks += 1;
            proof {
                assert(0 <= lo);
                assert(lo < recycled_blocks);
                assert(recycled_blocks <= DIRECT_COUNT);
                if lo < recycled_blocks - 1 {
                    assert(before == s0.direct@.subrange(lo, recycled_blocks - 1));
                } else {
                    assert(before.len() == 0);
                }
                assert(drop_data_blocks@ =~= s0.direct@.subrange(lo, recycled_blocks as int));
            }
        }
        // ----------------- End of Direct Blocks ----------------

        if recycled_blocks <= DIRECT_COUNT {
            return drop_data_blocks;
        }
        // from here on the new size is beyond the direct blocks: nothing was
        // released, and nothing below is
        assert(recycled_blocks == lo && lo > DIRECT_COUNT);

        // -------------------- Indirect Level 1 -----------------
        if block_index == DIRECT_COUNT {
            drop_data_blocks.push(self.indirect1);
            self.indirect1 = 0;
        }
        block_index -= DIRECT_COUNT;
        recycled_blocks -= DIRECT_COUNT;
        let _ = block_device.get(self.indirect1 as usize);
        let indirect1_recycle_count = if recycled_blocks < INDIRECT1_COUNT { recycled_blocks } else { INDIRECT1_COUNT };
        while block_index < indirect1_recycle_count
            invariant
                block_index >= recycled_blocks,
            decreases indirect1_recycle_count - block_index,
        {
            block_index += 1;
        }
        // ----------------- End of Indirect Level 1 ------------

        if recycled_blocks <= INDIRECT1_COUNT {
            return drop_data_blocks;
        }

        // -------------------- Indirect Level 2 -----------------
        if block_index == INDIRECT1_COUNT {
            drop_data_blocks.push(self.indirect2);
            self.indirect2 = 0;
        }
        block_index -= INDIRECT1_COUNT;
        recycled_blocks -= INDIRECT1_COUNT;
        let _ = block_device.get(self.indirect2 as usize);
        // the remaining second-level positions lie at or past the new end:
        // no block there is released
        assert(block_index >= recycled_blocks);
        // ----------------- End of Indirect Level 2 ------------

        drop_data_blocks
    }
}

/// More data never needs fewer blocks.
pub proof fn lemma_total_blocks_monotonic(a: int, b: int)
    requires
        0 <= a <= b,
    ensures
        total_blocks(a) <= total_blocks(b),
{
    assert(data_blocks(a) <= data_blocks(b)) by (nonlinear_arith)
        requires 0 <= a <= b;
    let na = data_blocks(a);
    let nb = data_blocks(b);
    if na > INDIRECT1_BOUND {
        assert((na - 155 + 127) / 128 <= (nb - 155 + 127) / 128) by (nonlinear_arith)
            requires na <= nb;
    }
}

/// Size of a directory entry
pub const DIRENT_SIZE: usize = 32;

/// A directory entry
pub struct DirEntry {
    pub name: [u8; 28],
    pub inode_number: u32,
}

/// Length of the name stored in `bytes`: up to the first zero byte.
pub open spec fn name_len(bytes: Seq<u8>) -> int
    decreases bytes.len(),
{
    if bytes.len() == 0 {
        0
    } else if bytes[0] == 0u8 {
        0
    } else {
        1 + name_len(bytes.subrange(1, bytes.len() as int))
    }
}

/// `UTF-8` text of `bytes`, when they are valid `UTF-8`.
#[verifier::external_body]
fn utf8_str(bytes: &[u8]) -> (s: Option<&str>)
    ensures
        match s {
            Some(t) => vstd::utf8::valid_utf8(bytes@) && t.spec_bytes() == bytes@,
            None => !vstd::utf8::valid_utf8(bytes@),
        },
{
    core::str::from_utf8(bytes).ok()
}

impl DirEntry {
    /// Create a directory entry from name and inode number. When the name
    /// holds no zero byte, [`DirEntry::name`] gives it back: the stored
    /// name is the name's own bytes, which are valid `UTF-8`.
    pub fn new(name: &str, inode_number: u32) -> (d: Self)
        requires
            name.spec_bytes().len() <= NAME_LENGTH_LIMIT + 1,
        ensures
            d.inode_number == inode_number,
            forall|i: int| 0 <= i < 28 ==> #[trigger] d.name@[i] == (if i < name.spec_bytes().len() {
                name.spec_bytes()[i]
            } else {
                0u8
            }),
            (forall|i: int| 0 <= i < name.spec_bytes().len() ==> #[trigger] name.spec_bytes()[i] != 0u8) ==> {
                &&& d.name@.subrange(0, name_len(d.name@)) == name.spec_bytes()
                &&& vstd::utf8::valid_utf8(d.name@.subrange(0, name_len(d.name@)))
            },
    {
        let mut bytes = [0u8; 28];
        let src = name.as_bytes();
        let mut i: usize = 0;
        while i < src.len()
            invariant
                src@ == name.spec_bytes(),
                src@.len() <= 28,
                i <= src@.len(),
                forall|k: int| 0 <= k < 28 ==> #[trigger] bytes@[k] == (if k < i { src@[k] } else { 0u8 }),
            decreases src@.len() - i,
        {
            bytes[i] = src[i];
            i = i + 1;
        }
        proof {
            if forall|k: int| 0 <= k < src@.len() ==> #[trigger] src@[k] != 0u8 {
                lemma_name_len(bytes@, src@.len() as int);
                assert(bytes@.subrange(0, src@.len() as int) =~= src@);
                vstd::utf8::encode_utf8_valid_utf8(name@);
            }
        }
        Self { name: bytes, inode_number }
    }

    /// Create an empty directory entry
    pub fn empty() -> (d: Self)
        ensures
            d.inode_number == 0,
            forall|i: int| 0 <= i < 28 ==> #[trigger] d.name@[i] == 0u8,
    {
        Self { name: [0u8; 28], inode_number: 0 }
    }

    /// Serialize into bytes: the name bytes, then the inode number in
    /// little-endian order
    pub fn as_bytes(&self) -> (b: Vec<u8>)
        ensures
            b@ == self.name@ + vstd::bytes::spec_u32_to_le_bytes(self.inode_number),
            b@.len() == DIRENT_SIZE,
    {
        let mut b: Vec<u8> = Vec::new();
        let mut i: usize = 0;
        while i < 28
            invariant
                i <= 28,
                b@ == self.name@.subrange(0, i as int),
            decreases 28 - i,
        {
            b.push(self.name[i]);
            i = i + 1;
            assert(b@ =~= self.name@.subrange(0, i as int));
        }
        let tail = vstd::bytes::u32_to_le_bytes(self.inode_number);
        b.extend_from_slice(tail.as_slice());
        proof {
            vstd::bytes::lemma_auto_spec_u32_to_from_le_bytes();
            assert(self.name@.subrange(0, 28) =~= self.name@);
            assert(b@ =~= self.name@ + tail@);
        }
        b
    }

    /// Deserialize from the bytes written by [`DirEntry::as_bytes`]
    pub fn from_bytes(bytes: &[u8]) -> (d: Self)
        requires
            bytes@.len() == DIRENT_SIZE,
        ensures
            d.name@ == bytes@.subrange(0, 28),
            d.inode_number == vstd::bytes::spec_u32_from_le_bytes(bytes@.subrange(28, 32)),
    {
        let mut name = [0u8; 28];
        let mut i: usize = 0;
        while i < 28
            invariant
                i <= 28,
                bytes@.len() == DIRENT_SIZE,
                forall|k: int| 0 <= k < i ==> #[trigger] name@[k] == bytes@[k],
            decreases 28 - i,
        {
            name[i] = bytes[i];
            i = i + 1;
        }
        let tail = slice_range(bytes, 28, 32);
        let inode_number = vstd::bytes::u32_from_le_bytes(tail.as_slice());
        assert(name@ =~= bytes@.subrange(0, 28));
        Self { name, inode_number }
    }

    /// Get name of the entry: the bytes up to the first zero byte
    pub fn name(&self) -> (s: &str)
        requires
            vstd::utf8::valid_utf8(self.name@.subrange(0, name_len(self.name@))),
        ensures
            s.spec_bytes() == self.name@.subrange(0, name_len(self.name@)),
    {
        let mut len: usize = 0;
        while len < 28 && self.name[len] != 0
            invariant
                len <= 28,
                forall|k: int| 0 <= k < len ==> #[trigger] self.name@[k] != 0u8,
            decreases 28 - len,
        {
            len = len + 1;
        }
        proof {
            lemma_name_len(self.name@, len as int);
        }
        let bytes: &[u8] = &self.name[0..len];
        match utf8_str(bytes) {
            Some(s) => s,
            None => {
                assert(false);
                ""
            },
        }
    }

    /// Get inode number of the entry
    pub fn inode_number(&self) -> (n: u32)
        ensures
            n == self.inode_number,
    {
        self.inode_number
    }
}

/// The name length is the position of the first zero byte.
pub proof fn lemma_name_len(bytes: Seq<u8>, len: int)
    requires
        0 <= len <= bytes.len(),
        forall|k: int| 0 <= k < len ==> #[trigger] bytes[k] != 0u8,
        len == bytes.len() || bytes[len] == 0u8,
    ensures
        name_len(bytes) == len,
    decreases len,
{
    if len > 0 {
        let rest = bytes.subrange(1, bytes.len() as int);
        assert forall|k: int| 0 <= k < len - 1 implies #[trigger] rest[k] != 0u8 by {
            assert(rest[k] == bytes[k + 1]);
        }
        lemma_name_len(rest, len - 1);
    }
}

/// The name held by the bytes of a directory entry: its name field up to
/// the first zero byte.
pub open spec fn entry_name(entry: Seq<u8>) -> Seq<u8> {
    let name = entry.subrange(0, 28);
    name.subrange(0, name_len(name))
}

/// A copy of `bytes[start..end]`.
pub fn slice_range(bytes: &[u8], start: usize, end: usize) -> (v: Vec<u8>)
    requires
        start <= end <= bytes@.len(),
    ensures
        v@ == bytes@.subrange(start as int, end as int),
{
    let mut v: Vec<u8> = Vec::new();
    let mut i = start;
    while i < end
        invariant
            start <= i <= end,
            end <= bytes@.len(),
            v@ == bytes@.subrange(start as int, i as int),
        decreases end - i,
    {
        v.push(bytes[i]);
        i = i + 1;
        assert(v@ =~= bytes@.subrange(start as int, i as int));
    }
    v
}


/// The four bytes of word `q` in `words_bytes(a)` are its little-endian
/// bytes.
proof fn lemma_words_bytes_word(a: Seq<u32>, q: int)
    requires
        0 <= q < a.len(),
    ensures
        words_bytes(a).subrange(4 * q, 4 * q + 4) == vstd::bytes::spec_u32_to_le_bytes(a[q]),
{
    vstd::bytes::lemma_auto_spec_u32_to_from_le_bytes();
    let s = words_bytes(a).subrange(4 * q, 4 * q + 4);
    assert(4 * q + 4 <= a.len() * 4) by (nonlinear_arith)
        requires
            q < a.len(),
    ;
    assert forall|r: int| 0 <= r < 4 implies s[r] == vstd::bytes::spec_u32_to_le_bytes(a[q])[r] by {
        let k = 4 * q + r;
        assert(k / 4 == q && k % 4 == r) by (nonlinear_arith)
            requires
                k == 4 * q + r,
                0 <= r < 4,
        ;
    }
    assert(s =~= vstd::bytes::spec_u32_to_le_bytes(a[q]));
}

/// The words stored in a disk inode's bytes, after its kind.
pub open spec fn disk_inode_words(d: DiskInode) -> Seq<u32> {
    seq![d.size] + d.direct@ + seq![d.indirect1, d.indirect2]
}

/// Word `q` of a disk inode is stored at bytes `4 + 4q..8 + 4q`.
proof fn lemma_disk_inode_word(d: DiskInode, q: int)
    requires
        0 <= q < 30,
    ensures
        disk_inode_words(d).len() == 30,
        disk_inode_bytes(d).len() == 124,
        disk_inode_bytes(d).subrange(4 + 4 * q, 8 + 4 * q) == vstd::bytes::spec_u32_to_le_bytes(disk_inode_words(d)[q]),
{
    let w = disk_inode_words(d);
    assert(w.len() == 30);
    lemma_words_bytes_word(w, q);
    let b = disk_inode_bytes(d);
    assert(b.subrange(4 + 4 * q, 8 + 4 * q) =~= words_bytes(w).subrange(4 * q, 4 * q + 4));
}

/// A disk inode takes 124 bytes on disk.
pub proof fn lemma_disk_inode_len(d: DiskInode)
    ensures
        disk_inode_bytes(d).len() == 124,
{
    lemma_disk_inode_word(d, 0);
}

/// Different disk inodes have different bytes on disk.
pub proof fn lemma_disk_inode_bytes_injective(a: DiskInode, b: DiskInode)
    requires
        disk_inode_bytes(a) == disk_inode_bytes(b),
    ensures
        a == b,
{
    vstd::bytes::lemma_auto_spec_u32_to_from_le_bytes();
    broadcast use vstd::array::group_array_axioms;
    assert(disk_inode_bytes(a)[0] == kind_byte(a.kind));
    assert(disk_inode_bytes(b)[0] == kind_byte(b.kind));
    assert(a.kind == b.kind);
    let wa = disk_inode_words(a);
    let wb = disk_inode_words(b);
    assert forall|q: int| 0 <= q < 30 implies wa[q] == wb[q] by {
        lemma_disk_inode_word(a, q);
        lemma_disk_inode_word(b, q);
        let ta = vstd::bytes::spec_u32_to_le_bytes(wa[q]);
        let tb = vstd::bytes::spec_u32_to_le_bytes(wb[q]);
        assert(ta == tb);
        assert(ta.len() == 4 && vstd::bytes::spec_u32_from_le_bytes(ta) == wa[q]);
        assert(tb.len() == 4 && vstd::bytes::spec_u32_from_le_bytes(tb) == wb[q]);
    }
    assert forall|i: int| 0 <= i < DIRECT_COUNT implies a.direct[i] == b.direct[i] by {
        assert(wa[1 + i] == a.direct@[i]);
        assert(wb[1 + i] == b.direct@[i]);
    }
    assert(a.direct =~= b.direct);
    assert(wa[0] == a.size && wb[0] == b.size);
    assert(wa[28] == a.indirect1 && wb[28] == b.indirect1);
    assert(wa[29] == a.indirect2 && wb[29] == b.indirect2);
}

/// The word at `bytes[off..off + 4]`, little endian.
fn word_at(bytes: &[u8], off: usize) -> (w: u32)
    requires
        off + 4 <= bytes@.len(),
    ensures
        w == vstd::bytes::spec_u32_from_le_bytes(bytes@.subrange(off as int, off + 4)),
{
    let n = bytes.len();
    assert(n == bytes@.len());
    let v = slice_range(bytes, off, off + 4);
    vstd::bytes::u32_from_le_bytes(v.as_slice())
}

impl DiskInode {
    /// Read a disk inode back from its bytes on disk (see
    /// [`disk_inode_bytes`]); `None` when they are no disk inode's bytes: the
    /// kind is neither 0 nor 1, or the three bytes after it are not zero
    pub fn from_bytes(bytes: &[u8]) -> (d: Option<Self>)
        requires
            bytes@.len() == 124,
        ensures
            match d {
                Some(x) => disk_inode_bytes(x) == bytes@,
                None => forall|x: DiskInode| #[trigger] disk_inode_bytes(x) != bytes@,
            },
    {
        if (bytes[0] != 0 && bytes[0] != 1) || bytes[1] != 0 || bytes[2] != 0 || bytes[3] != 0 {
            proof {
                assert forall|x: DiskInode| #[trigger] disk_inode_bytes(x) != bytes@ by {
                    let b = disk_inode_bytes(x);
                    assert(b[0] == kind_byte(x.kind) && b[1] == 0 && b[2] == 0 && b[3] == 0);
                }
            }
            return None;
        }
        let kind = if bytes[0] == 0 { DiskInodeKind::File } else { DiskInodeKind::Directory };
        let size = word_at(bytes, 4);
        let mut direct = [0u32; DIRECT_COUNT];
        let mut i: usize = 0;
        while i < DIRECT_COUNT
            invariant
                i <= DIRECT_COUNT,
                bytes@.len() == 124,
                forall|k: int| 0 <= k < i ==> #[trigger] direct@[k]
                    == vstd::bytes::spec_u32_from_le_bytes(bytes@.subrange(8 + 4 * k, 12 + 4 * k)),
            decreases DIRECT_COUNT - i,
        {
            let w = word_at(bytes, 8 + 4 * i);
            direct[i] = w;
            i = i + 1;
        }
        let indirect1 = word_at(bytes, 116);
        let indirect2 = word_at(bytes, 120);
        let x = DiskInode { kind, size, direct, indirect1, indirect2 };
        proof {
            vstd::bytes::lemma_auto_spec_u32_to_from_le_bytes();
            let b = disk_inode_bytes(x);
            let w = disk_inode_words(x);
            assert forall|q: int| 0 <= q < 30 implies #[trigger] w[q]
                == vstd::bytes::spec_u32_from_le_bytes(bytes@.subrange(4 + 4 * q, 8 + 4 * q)) by {
                if 1 <= q < 28 {
                    assert(w[q] == direct@[q - 1]);
                }
            }
            assert forall|k: int| 0 <= k < 124 implies b[k] == bytes@[k] by {
                if k >= 4 {
                    let q = (k - 4) / 4;
                    let r = (k - 4) % 4;
                    assert(k == 4 + 4 * q + r && 0 <= q < 30 && 0 <= r < 4) by (nonlinear_arith)
                        requires
                            q == (k - 4) / 4,
                            r == (k - 4) % 4,
                            4 <= k < 124,
                    ;
                    lemma_disk_inode_word(x, q);
                    let s = bytes@.subrange(4 + 4 * q, 8 + 4 * q);
                    assert(w[q] == vstd::bytes::spec_u32_from_le_bytes(s));
                    assert(vstd::bytes::spec_u32_to_le_bytes(w[q]) == s);
                    assert(b.subrange(4 + 4 * q, 8 + 4 * q)[r] == b[k]);
                    assert(s[r] == bytes@[k]);
                }
            }
            assert(b =~= bytes@);
        }
        Some(x)
    }
}

} // verus!
