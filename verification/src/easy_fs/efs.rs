//! The file system as a whole: where its areas lie on the disk.

use vstd::prelude::*;
use super::bitmap::{word_offset, Bitmap};
use super::block_cache::{splice, u64_at, BlockCacheManager};
use super::block_dev::zeroed_block;
use super::config::{BLOCK_BITS, BLOCK_SIZE, EFS_MAGIC};
use super::layout::{disk_inode_bytes, super_block_bytes, DiskInode, DiskInodeKind, SuperBlock};

verus! {

/// Bytes a disk inode takes on disk: the kind (padded to 4 bytes), the
/// size, 27 direct pointers and two indirect pointers.
pub const DISK_INODE_SIZE: usize = 124;

/// Disk inodes stored in one block.
pub const INODES_PER_BLOCK: usize = 4;

/// An easy file system on block
pub struct EasyFileSystem {
    /// Real device, behind its cache
    pub block_device: BlockCacheManager,
    /// Inode bitmap
    pub inode_bitmap: Bitmap,
    /// Data bitmap
    pub data_bitmap: Bitmap,
    pub inode_area_start_block: u32,
    pub data_area_start_block: u32,
}

impl EasyFileSystem {
    /// Allocate an inode: the lowest free bit of the inode bitmap
    pub fn alloc_inode(&mut self) -> (id: u32)
        requires
            old(self).block_device.wf(),
            old(self).inode_bitmap.fits(old(self).block_device.view()),
            old(self).inode_bitmap.capacity() <= u32::MAX,
            exists|c: int| 0 <= c < old(self).inode_bitmap.capacity() && !#[trigger] old(self).inode_bitmap.bit(
                old(self).block_device.view(),
                c,
            ),
        ensures
            final(self).block_device.wf(),
            final(self).inode_bitmap == old(self).inode_bitmap,
            final(self).data_bitmap == old(self).data_bitmap,
            final(self).inode_area_start_block == old(self).inode_area_start_block,
            final(self).data_area_start_block == old(self).data_area_start_block,
            id < old(self).inode_bitmap.capacity(),
            !old(self).inode_bitmap.bit(old(self).block_device.view(), id as int),
            forall|c: int| 0 <= c < id ==> #[trigger] old(self).inode_bitmap.bit(old(self).block_device.view(), c),
            final(self).inode_bitmap.bit(final(self).block_device.view(), id as int),
            ({
                let blk = old(self).inode_bitmap.start() + (id as int) / (BLOCK_BITS as int);
                let off = word_offset(id as int);
                let w = u64_at(old(self).block_device.view()[blk], off);
                final(self).block_device.view() == old(self).block_device.view().update(
                    blk,
                    splice(old(self).block_device.view()[blk], off, vstd::bytes::spec_u64_to_le_bytes(w | (1u64 << (((id as int) % 64) as u64)))),
                )
            }),
            forall|c: int| 0 <= c < old(self).inode_bitmap.capacity() && c != id ==>
                #[trigger] final(self).inode_bitmap.bit(final(self).block_device.view(), c)
                    == old(self).inode_bitmap.bit(old(self).block_device.view(), c),
    {
        match self.inode_bitmap.alloc_bit(&mut self.block_device) {
            Some(b) => b as u32,
            None => {
                assert(false);
                0
            },
        }
    }

    /// Allocate a data block: the one the lowest free bit of the data bitmap
    /// stands for, counted from the start of the data area; that bit is set
    /// and no other block changes
    pub fn alloc_data(&mut self) -> (block_id: u32)
        requires
            old(self).block_device.wf(),
            old(self).data_bitmap.fits(old(self).block_device.view()),
            old(self).data_area_start_block + old(self).data_bitmap.capacity() <= u32::MAX,
            exists|c: int| 0 <= c < old(self).data_bitmap.capacity() && !#[trigger] old(self).data_bitmap.bit(
                old(self).block_device.view(),
                c,
            ),
        ensures
            final(self).block_device.wf(),
            final(self).inode_bitmap == old(self).inode_bitmap,
            final(self).data_bitmap == old(self).data_bitmap,
            final(self).inode_area_start_block == old(self).inode_area_start_block,
            final(self).data_area_start_block == old(self).data_area_start_block,
            ({
                let bit = block_id - old(self).data_area_start_block;
                let blk = old(self).data_bitmap.start() + bit / (BLOCK_BITS as int);
                &&& old(self).data_area_start_block <= block_id
                &&& 0 <= bit < old(self).data_bitmap.capacity()
                &&& !old(self).data_bitmap.bit(old(self).block_device.view(), bit)
                &&& forall|c: int| 0 <= c < bit ==> #[trigger] old(self).data_bitmap.bit(old(self).block_device.view(), c)
                &&& final(self).data_bitmap.bit(final(self).block_device.view(), bit)
                &&& forall|c: int| 0 <= c < old(self).data_bitmap.capacity() && c != bit ==>
                    #[trigger] final(self).data_bitmap.bit(final(self).block_device.view(), c)
                        == old(self).data_bitmap.bit(old(self).block_device.view(), c)
                &&& old(self).data_bitmap.start() <= blk < old(self).data_bitmap.start() + old(self).data_bitmap.len()
                &&& final(self).block_device.view().len() == old(self).block_device.view().len()
                &&& final(self).block_device.view() == old(self).block_device.view().update(
                    blk,
                    final(self).block_device.view()[blk],
                )
            }),
    {
        let ghost d0 = self.block_device.view();
        let r = self.data_bitmap.alloc_bit(&mut self.block_device);
        match r {
            Some(b) => {
                proof {
                    self.data_bitmap.lemma_nonneg();
                    assert((b as int) / (BLOCK_BITS as int) < self.data_bitmap.len()) by (nonlinear_arith)
                        requires b < self.data_bitmap.len() * BLOCK_BITS, BLOCK_BITS > 0;
                    let blk = self.data_bitmap.start() + (b as int) / (BLOCK_BITS as int);
                    assert(self.block_device.view() =~= d0.update(blk, self.block_device.view()[blk]));
                }
                self.data_area_start_block + b as u32
            },
            None => {
                assert(false);
                0
            },
        }
    }

    /// Give back data block `block_id`: its bytes are cleared to zero and
    /// its bit of the data bitmap is cleared; no other block changes
    pub fn dealloc_data(&mut self, block_id: u32)
        requires
            old(self).block_device.wf(),
            old(self).data_bitmap.fits(old(self).block_device.view()),
            old(self).data_bitmap.start() + old(self).data_bitmap.len() <= old(self).data_area_start_block,
            old(self).data_area_start_block <= block_id,
            block_id < old(self).data_area_start_block + old(self).data_bitmap.capacity(),
            block_id < old(self).block_device.view().len(),
            old(self).data_bitmap.bit(old(self).block_device.view(), block_id - old(self).data_area_start_block),
        ensures
            final(self).block_device.wf(),
            final(self).inode_bitmap == old(self).inode_bitmap,
            final(self).data_bitmap == old(self).data_bitmap,
            final(self).inode_area_start_block == old(self).inode_area_start_block,
            final(self).data_area_start_block == old(self).data_area_start_block,
            final(self).block_device.view().len() == old(self).block_device.view().len(),
            final(self).block_device.view()[block_id as int] == zero_block(),
            !final(self).data_bitmap.bit(final(self).block_device.view(), block_id - old(self).data_area_start_block),
            forall|c: int| 0 <= c < old(self).data_bitmap.capacity() && c != block_id - old(self).data_area_start_block
                ==> #[trigger] final(self).data_bitmap.bit(final(self).block_device.view(), c)
                    == old(self).data_bitmap.bit(old(self).block_device.view(), c),
            forall|b: int| 0 <= b < old(self).block_device.view().len() && b != block_id
                && !(old(self).data_bitmap.start() <= b < old(self).data_bitmap.start() + old(self).data_bitmap.len())
                ==> #[trigger] final(self).block_device.view()[b] == old(self).block_device.view()[b],
    {
        let ghost d0 = self.block_device.view();
        let ghost start = self.data_area_start_block as int;
        proof {
            self.data_bitmap.lemma_nonneg();
            self.block_device.lemma_wf();
        }
        let zeros = zeroed_block();
        self.block_device.modify(block_id as usize, 0, zeros.as_slice());
        let ghost d1 = self.block_device.view();
        let bit = (block_id - self.data_area_start_block) as usize;
        proof {
            assert(d1[block_id as int] =~= zero_block());
            assert forall|q: int| self.data_bitmap.start() <= q < self.data_bitmap.start() + self.data_bitmap.len()
                implies #[trigger] d1[q] == d0[q] by {}
            assert forall|c: int| 0 <= c < self.data_bitmap.capacity()
                implies #[trigger] self.data_bitmap.bit(d1, c) == self.data_bitmap.bit(d0, c) by {
                let q = c / (BLOCK_BITS as int);
                assert(0 <= q < self.data_bitmap.len()) by (nonlinear_arith)
                    requires q == c / (BLOCK_BITS as int), 0 <= c < self.data_bitmap.len() * BLOCK_BITS, BLOCK_BITS > 0;
                assert(d1[self.data_bitmap.start() + q] == d0[self.data_bitmap.start() + q]);
            }
            assert((bit as int) / (BLOCK_BITS as int) < self.data_bitmap.len()) by (nonlinear_arith)
                requires bit < self.data_bitmap.len() * BLOCK_BITS, BLOCK_BITS > 0;
        }
        self.data_bitmap.dealloc(&mut self.block_device, bit);
        proof {
            let blk = self.data_bitmap.start() + (bit as int) / (BLOCK_BITS as int);
            assert(self.block_device.view() =~= d1.update(blk, self.block_device.view()[blk]));
            assert forall|c: int| 0 <= c < self.data_bitmap.capacity() && c != bit
                implies #[trigger] self.data_bitmap.bit(self.block_device.view(), c) == self.data_bitmap.bit(d0, c) by {
                let q = c / (BLOCK_BITS as int);
                assert(0 <= q < self.data_bitmap.len()) by (nonlinear_arith)
                    requires q == c / (BLOCK_BITS as int), 0 <= c < self.data_bitmap.len() * BLOCK_BITS, BLOCK_BITS > 0;
                assert(self.data_bitmap.bit(d1, c) == self.data_bitmap.bit(d0, c));
            }
        }
    }

    /// Get block_id and offset by inode_id
    pub fn disk_inode_pos(&self, inode_id: u32) -> (pos: (u32, usize))
        requires
            self.inode_area_start_block + (inode_id as int) / (INODES_PER_BLOCK as int) <= u32::MAX,
        ensures
            pos.0 == self.inode_area_start_block + (inode_id as int) / (INODES_PER_BLOCK as int),
            pos.1 == ((inode_id as int) % (INODES_PER_BLOCK as int)) * DISK_INODE_SIZE,
            pos.1 + DISK_INODE_SIZE <= BLOCK_SIZE,
    {
        let block_id = self.inode_area_start_block + inode_id / (INODES_PER_BLOCK as u32);
        let offset = (inode_id % (INODES_PER_BLOCK as u32)) as usize * DISK_INODE_SIZE;
        (block_id, offset)
    }

    /// The inode number of the disk inode at `offset` of block `block_id`:
    /// the inverse of [`EasyFileSystem::disk_inode_pos`]
    pub fn disk_inode_id(&self, block_id: u32, offset: usize) -> (id: u32)
        requires
            self.inode_area_start_block <= block_id,
            (block_id - self.inode_area_start_block) * INODES_PER_BLOCK + (offset as int) / (DISK_INODE_SIZE as int) <= u32::MAX,
        ensures
            id == (block_id - self.inode_area_start_block) * INODES_PER_BLOCK + (offset as int) / (DISK_INODE_SIZE as int),
    {
        ((block_id - self.inode_area_start_block) as usize * INODES_PER_BLOCK + offset / DISK_INODE_SIZE) as u32
    }
}

/// The position of an inode gives back its number.
pub proof fn lemma_inode_pos_then_id(inode_area_start_block: u32, inode_id: u32)
    ensures
        ({
            let block = inode_area_start_block + (inode_id as int) / (INODES_PER_BLOCK as int);
            let offset = ((inode_id as int) % (INODES_PER_BLOCK as int)) * DISK_INODE_SIZE;
            (block - inode_area_start_block) * INODES_PER_BLOCK + (offset as int) / (DISK_INODE_SIZE as int) == inode_id
        }),
{
    let q = (inode_id as int) / 4;
    let r = (inode_id as int) % 4;
    assert(inode_id == q * 4 + r && 0 <= r < 4) by (nonlinear_arith)
        requires
            q == (inode_id as int) / 4,
            r == (inode_id as int) % 4,
    ;
    assert((r * 124) / 124 == r) by (nonlinear_arith)
        requires
            0 <= r < 4,
    ;
}

/// Blocks taken by the inodes that `inode_bitmap_blocks` bitmap blocks
/// can number.
pub open spec fn inode_area_blocks(inode_bitmap_blocks: u32) -> u32 {
    ((inode_bitmap_blocks * BLOCK_BITS * DISK_INODE_SIZE + BLOCK_SIZE - 1) / BLOCK_SIZE as int) as u32
}

/// Blocks of the data areas, the bitmap included, of a file system of
/// `total_blocks` blocks.
pub open spec fn data_total_blocks(total_blocks: u32, inode_bitmap_blocks: u32) -> int {
    total_blocks - 1 - (inode_bitmap_blocks + inode_area_blocks(inode_bitmap_blocks))
}

/// Blocks of the data bitmap: one bitmap block for 4096 data blocks.
pub open spec fn data_bitmap_blocks(total_blocks: u32, inode_bitmap_blocks: u32) -> int {
    (data_total_blocks(total_blocks, inode_bitmap_blocks) + 4096) / 4097
}

/// A file system of `total_blocks` blocks with `inode_bitmap_blocks` inode
/// bitmap blocks can be laid out: the sizes fit their types and the super
/// block, the inode bitmap and the inode area fit on the disk.
pub open spec fn layout_ok(total_blocks: u32, inode_bitmap_blocks: u32) -> bool {
    &&& 1 <= inode_bitmap_blocks
    &&& inode_bitmap_blocks * BLOCK_BITS <= u32::MAX
    &&& inode_bitmap_blocks * BLOCK_BITS * DISK_INODE_SIZE + BLOCK_SIZE - 1 <= usize::MAX
    &&& inode_bitmap_blocks + inode_area_blocks(inode_bitmap_blocks) <= u32::MAX
    &&& 1 + inode_bitmap_blocks + inode_area_blocks(inode_bitmap_blocks) < total_blocks
    &&& data_total_blocks(total_blocks, inode_bitmap_blocks) + 4096 <= u32::MAX
}

/// `d` is an empty directory: no size and no block.
pub open spec fn is_empty_dir(d: DiskInode) -> bool {
    &&& d.kind == DiskInodeKind::Directory
    &&& d.size == 0
    &&& forall|i: int| 0 <= i < 27 ==> #[trigger] d.direct@[i] == 0
    &&& d.indirect1 == 0
    &&& d.indirect2 == 0
}

/// A block of zeros.
pub open spec fn zero_block() -> Seq<u8> {
    Seq::new(BLOCK_SIZE as nat, |i: int| 0u8)
}

/// The word of zeros reads as zero.
proof fn lemma_zero_word(block: Seq<u8>, off: int)
    requires
        0 <= off,
        off + 8 <= block.len(),
        forall|i: int| off <= i < off + 8 ==> #[trigger] block[i] == 0u8,
    ensures
        u64_at(block, off) == 0,
{
    vstd::bytes::lemma_auto_spec_u64_to_from_le_bytes();
    vstd::bytes::spec_u64_to_le_bytes_to_open(0u64);
    assert(0u64 & 0xff == 0 && (0u64 >> 8u64) & 0xff == 0 && (0u64 >> 16u64) & 0xff == 0 && (0u64 >> 24u64) & 0xff == 0
        && (0u64 >> 32u64) & 0xff == 0 && (0u64 >> 40u64) & 0xff == 0 && (0u64 >> 48u64) & 0xff == 0
        && (0u64 >> 56u64) & 0xff == 0) by (bit_vector);
    assert(block.subrange(off, off + 8) =~= vstd::bytes::spec_u64_to_le_bytes(0u64));
}

impl EasyFileSystem {
    /// Lay out an empty file system over the `total_blocks` blocks of
    /// `block_device`: the super block, the inode bitmap of
    /// `inode_bitmap_blocks` blocks, the inodes it numbers, then the data
    /// bitmap and the data blocks, with one data bitmap block for every 4096
    /// data blocks. Every block is cleared, the super block written, and
    /// inode 0 taken for the root directory; all of it reaches the device
    pub fn create(block_device: BlockCacheManager, total_blocks: u32, inode_bitmap_blocks: u32) -> (efs: Self)
        requires
            block_device.wf(),
            block_device.view().len() == total_blocks,
            layout_ok(total_blocks, inode_bitmap_blocks),
        ensures
            ({
                let iab = inode_area_blocks(inode_bitmap_blocks);
                let dbb = data_bitmap_blocks(total_blocks, inode_bitmap_blocks);
                let dab = data_total_blocks(total_blocks, inode_bitmap_blocks) - dbb;
                let v = efs.block_device.view();
                let root = 1 + inode_bitmap_blocks;
                &&& efs.block_device.wf()
                &&& efs.block_device.device_view() == v
                &&& v.len() == total_blocks
                &&& efs.inode_bitmap.start() == 1
                &&& efs.inode_bitmap.len() == inode_bitmap_blocks
                &&& efs.data_bitmap.start() == 1 + inode_bitmap_blocks + iab
                &&& efs.data_bitmap.len() == dbb
                &&& efs.inode_area_start_block == 1 + inode_bitmap_blocks
                &&& efs.data_area_start_block == 1 + inode_bitmap_blocks + iab + dbb
                &&& v[0] == splice(zero_block(), 0, super_block_bytes(SuperBlock {
                    magic: EFS_MAGIC,
                    total_blocks,
                    inode_bitmap_blocks,
                    inode_area_blocks: iab,
                    data_bitmap_blocks: dbb as u32,
                    data_area_blocks: dab as u32,
                }))
                &&& v[1] == splice(zero_block(), 0, vstd::bytes::spec_u64_to_le_bytes(1u64))
                &&& exists|d: DiskInode| #[trigger] is_empty_dir(d)
                    && v[root as int] == splice(zero_block(), 0, disk_inode_bytes(d))
                &&& forall|b: int| 1 < b < total_blocks && b != root ==> #[trigger] v[b] == zero_block()
            }),
    {
        let inode_bitmap = Bitmap::new(1, inode_bitmap_blocks as usize);
        let inode_num = inode_bitmap.maximum();
        let inode_area_blocks = ((inode_num * DISK_INODE_SIZE + BLOCK_SIZE - 1) / BLOCK_SIZE) as u32;
        let inode_total_blocks = inode_bitmap_blocks + inode_area_blocks;
        let data_total_blocks = total_blocks - 1 - inode_total_blocks;
        let data_bitmap_blocks = (data_total_blocks + 4096) / 4097;
        let data_area_blocks = data_total_blocks - data_bitmap_blocks;
        let data_bitmap = Bitmap::new(
            (1 + inode_bitmap_blocks + inode_area_blocks) as usize,
            data_bitmap_blocks as usize,
        );
        let mut block_device = block_device;
        // clear all blocks
        let mut b: usize = 0;
        while b < total_blocks as usize
            invariant
                block_device.wf(),
                block_device.view().len() == total_blocks,
                b <= total_blocks,
                forall|j: int| 0 <= j < b ==> #[trigger] block_device.view()[j] == zero_block(),
            decreases total_blocks - b,
        {
            let z = zeroed_block();
            proof {
                block_device.lemma_wf();
            }
            block_device.modify(b, 0, &z);
            proof {
                assert(block_device.view()[b as int] =~= zero_block());
            }
            b = b + 1;
        }
        let mut super_block = SuperBlock::zeroed();
        super_block.init(total_blocks, inode_bitmap_blocks, inode_area_blocks, data_bitmap_blocks, data_area_blocks);
        let sb_bytes = super_block.to_bytes();
        block_device.modify(0, 0, &sb_bytes);
        let mut efs = EasyFileSystem {
            block_device,
            inode_bitmap,
            data_bitmap,
            inode_area_start_block: 1 + inode_bitmap_blocks,
            data_area_start_block: 1 + inode_total_blocks + data_bitmap_blocks,
        };
        proof {
            assert(efs.block_device.view()[1] == zero_block());
            lemma_zero_word(efs.block_device.view()[1], 0);
            assert((0u64 >> 0u64) & 1u64 != 1u64) by (bit_vector);
            assert(!efs.inode_bitmap.bit(efs.block_device.view(), 0));
        }
        let root = efs.alloc_inode();
        let (root_inode_block_id, root_inode_offset) = efs.disk_inode_pos(root);
        let root_inode = DiskInode::new(DiskInodeKind::Directory);
        let bytes = root_inode.to_bytes();
        efs.block_device.modify(root_inode_block_id as usize, root_inode_offset, &bytes);
        efs.block_device.sync_all();
        proof {
            assert(0u64 | (1u64 << 0u64) == 1u64) by (bit_vector);
            assert(is_empty_dir(root_inode));
        }
        efs
    }
}

} // verus!
