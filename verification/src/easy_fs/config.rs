//! Layout constants of the easy file system.

use vstd::prelude::*;

verus! {

/// Use a block size of 512 bytes
pub const BLOCK_SIZE: usize = 512;

/// Number of bits in a block
pub const BLOCK_BITS: usize = 4096;

/// Use a block cache of 16 blocks
pub const BLOCK_CACHE_SIZE: usize = 16;

/// Magic number for sanity check
pub const EFS_MAGIC: u32 = 0x3b80_0001;

/// The max number of direct inodes
pub const DIRECT_COUNT: usize = 27;

/// The number of indirect inodes
pub const INDIRECT_COUNT: usize = 128;

/// The max number of indirect1 inodes
pub const INDIRECT1_COUNT: usize = 128;

/// The max number of indirect2 inodes
pub const INDIRECT2_COUNT: usize = 16384;

/// The max number of indirect3 inodes
pub const INDIRECT3_COUNT: usize = 2097152;

/// The upper bound of direct inode index
pub const DIRECT_BOUND: usize = 27;

/// The upper bound of indirect1 inode index
pub const INDIRECT1_BOUND: usize = 155;

/// The upper bound of indirect2 inode indexs
pub const INDIRECT2_BOUND: usize = 16539;

/// The upper bound of indirect3 inode indexs
pub const INDIRECT3_BOUND: usize = 2113691;

/// The max length of inode name
pub const NAME_LENGTH_LIMIT: usize = 27;

/// The constants are related as their names say.
pub proof fn lemma_config_relations()
    ensures
        BLOCK_BITS == BLOCK_SIZE * 8,
        INDIRECT_COUNT == BLOCK_SIZE / 4,
        INDIRECT1_COUNT == INDIRECT_COUNT,
        INDIRECT2_COUNT == INDIRECT_COUNT * INDIRECT_COUNT,
        INDIRECT3_COUNT == INDIRECT_COUNT * INDIRECT_COUNT * INDIRECT_COUNT,
        DIRECT_BOUND == DIRECT_COUNT,
        INDIRECT1_BOUND == DIRECT_BOUND + INDIRECT1_COUNT,
        INDIRECT2_BOUND == INDIRECT1_BOUND + INDIRECT2_COUNT,
        INDIRECT3_BOUND == INDIRECT2_BOUND + INDIRECT3_COUNT,
{
}

} // verus!
