//! An in-memory block device: the disk image the file system lives on.

use vstd::prelude::*;
use super::config::BLOCK_SIZE;

verus! {

/// A device made of fixed-size blocks of `BLOCK_SIZE` bytes.
pub struct BlockDevice {
    blocks: Vec<Vec<u8>>,
}

impl View for BlockDevice {
    type V = Seq<Seq<u8>>;

    closed spec fn view(&self) -> Seq<Seq<u8>> {
        self.blocks@.map_values(|b: Vec<u8>| b@)
    }
}

impl BlockDevice {
    /// Every block holds exactly `BLOCK_SIZE` bytes.
    pub open spec fn wf(&self) -> bool {
        forall|i: int| 0 <= i < self@.len() ==> (#[trigger] self@[i]).len() == BLOCK_SIZE
    }

    /// A device of `num_blocks` zeroed blocks.
    pub fn new(num_blocks: usize) -> (dev: Self)
        ensures
            dev.wf(),
            dev@.len() == num_blocks,
            forall|i: int, j: int|
                0 <= i < num_blocks && 0 <= j < BLOCK_SIZE ==> #[trigger] dev@[i][j] == 0u8,
    {
        let mut blocks: Vec<Vec<u8>> = Vec::new();
        let mut i: usize = 0;
        while i < num_blocks
            invariant
                i <= num_blocks,
                blocks@.len() == i,
                forall|k: int| 0 <= k < i ==> (#[trigger] blocks@[k])@.len() == BLOCK_SIZE,
                forall|k: int, j: int|
                    0 <= k < i && 0 <= j < BLOCK_SIZE ==> #[trigger] blocks@[k]@[j] == 0u8,
            decreases num_blocks - i,
        {
            let zero = zeroed_block();
            blocks.push(zero);
            i = i + 1;
        }
        let dev = BlockDevice { blocks };
        assert(dev@.len() == num_blocks);
        dev
    }

    /// A device holding the given blocks; `None` when one of them is not
    /// exactly `BLOCK_SIZE` bytes long.
    pub fn from_blocks(blocks: Vec<Vec<u8>>) -> (dev: Option<Self>)
        ensures
            match dev {
                Some(d) => d.wf() && d@ == blocks@.map_values(|b: Vec<u8>| b@),
                None => exists|i: int| 0 <= i < blocks@.len() && (#[trigger] blocks@[i])@.len() != BLOCK_SIZE,
            },
    {
        let n = blocks.len();
        let mut i: usize = 0;
        while i < n
            invariant
                n == blocks@.len(),
                i <= blocks@.len(),
                forall|k: int| 0 <= k < i ==> (#[trigger] blocks@[k])@.len() == BLOCK_SIZE,
            decreases blocks@.len() - i,
        {
            if blocks[i].len() != BLOCK_SIZE {
                return None;
            }
            i = i + 1;
        }
        Some(BlockDevice { blocks })
    }

    /// The blocks of the device, in order.
    pub fn into_blocks(self) -> (blocks: Vec<Vec<u8>>)
        ensures
            blocks@.map_values(|b: Vec<u8>| b@) == self@,
    {
        self.blocks
    }

    /// Number of blocks on the device.
    pub fn num_blocks(&self) -> (n: usize)
        ensures
            n == self@.len(),
    {
        self.blocks.len()
    }

    /// The number of blocks fits a `usize`.
    pub proof fn lemma_len(&self)
        ensures
            self@.len() <= usize::MAX,
    {
        assert(self.blocks.len() == self.blocks@.len());
    }

    /// Read block `block_id` into a fresh buffer.
    pub fn read_block(&self, block_id: usize) -> (buf: Vec<u8>)
        requires
            block_id < self@.len(),
        ensures
            buf@ == self@[block_id as int],
    {
        self.blocks[block_id].clone()
    }

    /// Overwrite block `block_id` with `buf`.
    pub fn write_block(&mut self, block_id: usize, buf: &[u8])
        requires
            old(self).wf(),
            block_id < old(self)@.len(),
            buf@.len() == BLOCK_SIZE,
        ensures
            final(self).wf(),
            final(self)@ == old(self)@.update(block_id as int, buf@),
    {
        let mut v: Vec<u8> = Vec::new();
        v.extend_from_slice(buf);
        assert(v@ =~= buf@);
        self.blocks.set(block_id, v);
        assert(self@ =~= old(self)@.update(block_id as int, buf@));
    }
}

/// A block of `BLOCK_SIZE` zero bytes.
pub fn zeroed_block() -> (b: Vec<u8>)
    ensures
        b@.len() == BLOCK_SIZE,
        forall|j: int| 0 <= j < BLOCK_SIZE ==> #[trigger] b@[j] == 0u8,
{
    let mut b: Vec<u8> = Vec::new();
    let mut i: usize = 0;
    while i < BLOCK_SIZE
        invariant
            i <= BLOCK_SIZE,
            b@.len() == i,
            forall|j: int| 0 <= j < i ==> #[trigger] b@[j] == 0u8,
        decreases BLOCK_SIZE - i,
    {
        b.push(0u8);
        i = i + 1;
    }
    b
}

} // verus!
