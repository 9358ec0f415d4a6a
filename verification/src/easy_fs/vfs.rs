//! Inodes: the files and directories of the easy file system, found by
//! where their disk inodes lie.

use vstd::prelude::*;
use vstd::string::StringSliceAdditionalSpecFns;
use super::block_cache::BlockCacheManager;
use super::config::BLOCK_SIZE;
use super::block_cache::splice;
use super::block_cache::u32_at;
use super::efs::{is_empty_dir, zero_block, EasyFileSystem, DISK_INODE_SIZE, INODES_PER_BLOCK};
use super::config::{INDIRECT1_BOUND, INDIRECT2_COUNT};
use super::bitmap::Bitmap;
use super::config::BLOCK_BITS;
use super::inode_growth::{
    data_pos, lemma_distinct_growth_readable, lemma_data_writes_keep_index, lemma_grow_same_index,
    lemma_owned_is_grow, lemma_owned_positions, lemma_same_owned_same_index, lemma_total_blocks_is_owned_len,
};
use super::layout::{
    data_blocks, total_blocks, disk_inode_bytes, entry_name, lemma_disk_inode_bytes_injective, min_int, name_len, DirEntry, DiskInode,
    DiskInodeKind, DIRENT_SIZE,
};

verus! {

/// The disk inode stored at byte `off` of block `b` on `disk` is `d`.
pub open spec fn stores_inode(disk: Seq<Seq<u8>>, b: int, off: int, d: DiskInode) -> bool {
    &&& 0 <= b < disk.len()
    &&& 0 <= off
    &&& off + DISK_INODE_SIZE <= BLOCK_SIZE
    &&& disk[b].subrange(off, off + DISK_INODE_SIZE) == disk_inode_bytes(d)
}

/// The bytes of directory entry `i` of the directory `d` on `disk`.
pub open spec fn dirent_bytes(d: DiskInode, disk: Seq<Seq<u8>>, i: int) -> Seq<u8> {
    Seq::new(DIRENT_SIZE as nat, |j: int| d.file_byte(disk, i * DIRENT_SIZE as int + j))
}

/// The name in directory entry `i` of the directory `d` on `disk`.
pub open spec fn dirent_name(d: DiskInode, disk: Seq<Seq<u8>>, i: int) -> Seq<u8> {
    entry_name(dirent_bytes(d, disk, i))
}

/// The inode number in directory entry `i` of the directory `d` on `disk`.
pub open spec fn dirent_inode(d: DiskInode, disk: Seq<Seq<u8>>, i: int) -> u32 {
    vstd::bytes::spec_u32_from_le_bytes(dirent_bytes(d, disk, i).subrange(28, 32))
}

/// Number of whole directory entries of the directory `d`.
pub open spec fn dirent_count(d: DiskInode) -> int {
    d.size as int / DIRENT_SIZE as int
}

/// The first of the entries `0..n` of the directory `d` on `disk` that is
/// named `name`.
pub open spec fn first_entry(d: DiskInode, disk: Seq<Seq<u8>>, name: Seq<u8>, n: int) -> Option<int>
    decreases n,
{
    if n <= 0 {
        None
    } else {
        match first_entry(d, disk, name, n - 1) {
            Some(i) => Some(i),
            None => if dirent_name(d, disk, n - 1) == name { Some(n - 1) } else { None },
        }
    }
}

/// The inode number that the directory `d` on `disk` gives the name `name`:
/// that of its first entry with that name.
pub open spec fn dir_lookup(d: DiskInode, disk: Seq<Seq<u8>>, name: Seq<u8>) -> Option<u32> {
    match first_entry(d, disk, name, dirent_count(d)) {
        Some(i) => Some(dirent_inode(d, disk, i)),
        None => None,
    }
}

/// The name in `entry` is `name`
fn name_is(entry: &DirEntry, name: &[u8]) -> (b: bool)
    ensures
        b == (entry.name@.subrange(0, name_len(entry.name@)) == name@),
{
    let mut len: usize = 0;
    while len < 28 && entry.name[len] != 0
        invariant
            len <= 28,
            forall|k: int| 0 <= k < len ==> #[trigger] entry.name@[k] != 0u8,
        decreases 28 - len,
    {
        len = len + 1;
    }
    proof {
        super::layout::lemma_name_len(entry.name@, len as int);
    }
    if len != name.len() {
        return false;
    }
    let mut i: usize = 0;
    while i < len
        invariant
            i <= len,
            len == name@.len(),
            len <= 28,
            name_len(entry.name@) == len,
            entry.name@.len() == 28,
            forall|k: int| 0 <= k < i ==> entry.name@[k] == name@[k],
        decreases len - i,
    {
        if entry.name[i] != name[i] {
            assert(entry.name@.subrange(0, len as int)[i as int] != name@[i as int]);
            return false;
        }
        i = i + 1;
    }
    assert(entry.name@.subrange(0, len as int) =~= name@);
    true
}

/// Find the inode number of the entry named `name` in the directory
/// `disk_inode`: that of the first entry with that name
fn find_inode_id(name: &[u8], disk_inode: &DiskInode, block_device: &mut BlockCacheManager) -> (r: Option<u32>)
    requires
        old(block_device).wf(),
        disk_inode.readable(old(block_device).view()),
        disk_inode.kind == DiskInodeKind::Directory,
    ensures
        final(block_device).wf(),
        final(block_device).view() == old(block_device).view(),
        r == dir_lookup(*disk_inode, old(block_device).view(), name@),
{
    let ghost disk = block_device.view();
    let target = name;
    let file_count = (disk_inode.size as usize) / DIRENT_SIZE;
    let mut i: usize = 0;
    while i < file_count
        invariant
            block_device.wf(),
            block_device.view() == disk,
            disk == old(block_device).view(),
            disk_inode.readable(disk),
            file_count == dirent_count(*disk_inode),
            i <= file_count,
            target@ == name@,
            first_entry(*disk_inode, disk, name@, i as int) is None,
        decreases file_count - i,
    {
        let mut buf: Vec<u8> = vec![0u8; DIRENT_SIZE];
        assert(i * 32 + 32 <= disk_inode.size) by (nonlinear_arith)
            requires
                i < file_count,
                file_count == disk_inode.size as int / 32,
        ;
        let n = disk_inode.read_at(i * DIRENT_SIZE, buf.as_mut_slice(), block_device);
        let entry = DirEntry::from_bytes(buf.as_slice());
        proof {
            assert(n == DIRENT_SIZE);
            assert(buf@ =~= dirent_bytes(*disk_inode, disk, i as int));
        }
        if name_is(&entry, target) {
            proof {
                assert(dirent_name(*disk_inode, disk, i as int) == name@);
                assert(first_entry(*disk_inode, disk, name@, i + 1) == Some(i as int));
                lemma_first_entry_stays(*disk_inode, disk, name@, i + 1, dirent_count(*disk_inode));
            }
            return Some(entry.inode_number());
        }
        i = i + 1;
    }
    None
}

/// Once an entry is found among the first `m`, it stays the first among more.
proof fn lemma_first_entry_stays(d: DiskInode, disk: Seq<Seq<u8>>, name: Seq<u8>, m: int, n: int)
    requires
        m <= n,
        first_entry(d, disk, name, m) is Some,
    ensures
        first_entry(d, disk, name, n) == first_entry(d, disk, name, m),
    decreases n - m,
{
    if m < n {
        lemma_first_entry_stays(d, disk, name, m, n - 1);
    }
}

/// Length of the first component of the path `p`: up to its first `/`.
pub open spec fn comp_len(p: Seq<u8>) -> int
    decreases p.len(),
{
    if p.len() == 0 {
        0
    } else if p[0] == 47u8 {
        0
    } else {
        1 + comp_len(p.subrange(1, p.len() as int))
    }
}

/// The first component of a path lies within it.
pub proof fn lemma_comp_len_bounds(p: Seq<u8>)
    ensures
        0 <= comp_len(p) <= p.len(),
    decreases p.len(),
{
    if p.len() > 0 && p[0] != 47u8 {
        lemma_comp_len_bounds(p.subrange(1, p.len() as int));
    }
}

/// The first component of a path ends at its first `/`.
pub proof fn lemma_comp_len(p: Seq<u8>, len: int)
    requires
        0 <= len <= p.len(),
        forall|k: int| 0 <= k < len ==> #[trigger] p[k] != 47u8,
        len == p.len() || p[len] == 47u8,
    ensures
        comp_len(p) == len,
    decreases len,
{
    if len > 0 {
        let rest = p.subrange(1, p.len() as int);
        assert forall|k: int| 0 <= k < len - 1 implies #[trigger] rest[k] != 47u8 by {
            assert(rest[k] == p[k + 1]);
        }
        lemma_comp_len(rest, len - 1);
    }
}

/// The inode numbered `id` when the inode area starts at block `area`.
pub closed spec fn inode_of(area: int, id: int) -> Inode {
    Inode { block_id: (area + id / INODES_PER_BLOCK as int) as usize, block_offset: ((id % INODES_PER_BLOCK as int) * DISK_INODE_SIZE) as usize }
}

/// Where the inode numbered `id` lies.
pub proof fn lemma_inode_of(area: int, id: int)
    requires
        0 <= area,
        0 <= id,
        area + id / INODES_PER_BLOCK as int <= usize::MAX,
    ensures
        inode_of(area, id).block() == area + id / INODES_PER_BLOCK as int,
        inode_of(area, id).offset() == (id % INODES_PER_BLOCK as int) * DISK_INODE_SIZE,
{
}

/// Inodes are known by where they lie.
pub proof fn lemma_inode_eq(a: Inode, b: Inode)
    requires
        a.block() == b.block(),
        a.offset() == b.offset(),
    ensures
        a == b,
{
}

/// Where one path component `name` leads from `node` on `disk`, the inode
/// area starting at block `area`: an empty component stays at `node`;
/// another leads nowhere from a node that is not a directory, and from a
/// directory to the inode its entry names, if any.
pub open spec fn step(disk: Seq<Seq<u8>>, area: int, node: Inode, name: Seq<u8>) -> Option<Inode> {
    if name.len() == 0 {
        Some(node)
    } else if node.disk_inode(disk).kind != DiskInodeKind::Directory {
        None
    } else {
        match dir_lookup(node.disk_inode(disk), disk, name) {
            Some(id) => Some(inode_of(area, id as int)),
            None => None,
        }
    }
}

/// Looking `name` up in `node` can be done: the component is empty, or
/// `node` lies on the disk and, when it is a directory, is readable and the
/// inode its entry names lies within the block numbers.
pub open spec fn step_ok(disk: Seq<Seq<u8>>, area: int, node: Inode, name: Seq<u8>) -> bool {
    name.len() > 0 ==> {
        &&& node.valid(disk)
        &&& node.disk_inode(disk).kind == DiskInodeKind::Directory ==> {
            &&& node.disk_inode(disk).readable(disk)
            &&& dir_lookup(node.disk_inode(disk), disk, name) matches Some(id) ==> area + (id as int) / (INODES_PER_BLOCK as int) <= u32::MAX
        }
    }
}

/// Where the path `p` leads from `node`: each component between slashes
/// in turn (see [`step`]), stopping at the first one not found.
pub open spec fn walk(disk: Seq<Seq<u8>>, area: int, node: Inode, p: Seq<u8>) -> Option<Inode>
    decreases p.len(),
{
    let n = comp_len(p);
    match step(disk, area, node, p.subrange(0, n)) {
        Some(next) => if n >= p.len() {
            Some(next)
        } else {
            proof {
                lemma_comp_len_bounds(p);
            }
            walk(disk, area, next, p.subrange(n + 1, p.len() as int))
        },
        None => None,
    }
}

/// Every lookup made while walking the path `p` from `node` can be done.
pub open spec fn walk_ok(disk: Seq<Seq<u8>>, area: int, node: Inode, p: Seq<u8>) -> bool
    decreases p.len(),
{
    let n = comp_len(p);
    &&& step_ok(disk, area, node, p.subrange(0, n))
    &&& match step(disk, area, node, p.subrange(0, n)) {
        Some(next) => n >= p.len() || {
            proof {
                lemma_comp_len_bounds(p);
            }
            walk_ok(disk, area, next, p.subrange(n + 1, p.len() as int))
        },
        None => true,
    }
}

/// A walk that can be done from a numbered inode leads, if anywhere, to a
/// numbered inode (see [`inode_of`]) whose block number fits in 32 bits.
pub proof fn lemma_walk_numbered(disk: Seq<Seq<u8>>, area: int, node: Inode, p: Seq<u8>, id0: u32)
    requires
        0 <= area,
        walk_ok(disk, area, node, p),
        node == inode_of(area, id0 as int),
        area + (id0 as int) / (INODES_PER_BLOCK as int) <= u32::MAX,
    ensures
        walk(disk, area, node, p) matches Some(n) ==> exists|id: u32| #![trigger inode_of(area, id as int)]
            n == inode_of(area, id as int) && area + (id as int) / (INODES_PER_BLOCK as int) <= u32::MAX,
    decreases p.len(),
{
    let n = comp_len(p);
    lemma_comp_len_bounds(p);
    let name = p.subrange(0, n);
    let next_id: u32 = if name.len() == 0 || node.disk_inode(disk).kind != DiskInodeKind::Directory {
        id0
    } else {
        match dir_lookup(node.disk_inode(disk), disk, name) {
            Some(id) => id,
            None => id0,
        }
    };
    match step(disk, area, node, name) {
        Some(next) => {
            assert(next == inode_of(area, next_id as int));
            if n < p.len() {
                lemma_walk_numbered(disk, area, next, p.subrange(n + 1, p.len() as int), next_id);
            }
        },
        None => {},
    }
}

/// The file of `node` can be written in `fs`: its disk inode lies before
/// the data bitmap, which lies on the disk before the data area; the blocks
/// the file owns (see [`DiskInode::grow`]) are distinct, lie in the data
/// area and are marked taken in the data bitmap.
pub open spec fn file_ok(fs: EasyFileSystem, node: Inode) -> bool {
    let disk = fs.block_device.view();
    let d = node.disk_inode(disk);
    let g = d.grow(disk, d.nblocks());
    let start = fs.data_area_start_block as int;
    &&& fs.block_device.wf()
    &&& node.valid(disk)
    &&& node.block() < fs.data_bitmap.start()
    &&& fs.data_bitmap.fits(disk)
    &&& fs.data_bitmap.start() + fs.data_bitmap.len() <= start
    &&& start + fs.data_bitmap.capacity() <= disk.len()
    &&& start + fs.data_bitmap.capacity() <= u32::MAX
    &&& d.nblocks() <= INDIRECT1_BOUND + INDIRECT2_COUNT
    &&& g.no_duplicates()
    &&& forall|k: int| 0 <= k < g.len() ==> start <= #[trigger] g[k] < start + fs.data_bitmap.capacity()
    &&& forall|k: int| 0 <= k < g.len() ==> fs.data_bitmap.bit(disk, #[trigger] g[k] - start)
}

/// The free bits of the data bitmap of `fs`: the data blocks still to be
/// had.
pub open spec fn free_data(fs: EasyFileSystem) -> Set<int> {
    Set::new(|c: int| 0 <= c < fs.data_bitmap.capacity() && !fs.data_bitmap.bit(fs.block_device.view(), c))
}

/// The size a file of size `size` has after `len` bytes are written at
/// `offset`.
pub open spec fn size_after_write(size: int, offset: int, len: int) -> int {
    if offset + len > size { offset + len } else { size }
}

/// The bits of a bitmap only depend on its own blocks.
proof fn lemma_bits_kept(bm: Bitmap, da: Seq<Seq<u8>>, db: Seq<Seq<u8>>)
    requires
        bm.start() >= 0,
        bm.fits(da),
        forall|b: int| bm.start() <= b < bm.start() + bm.len() ==> #[trigger] db[b] == da[b],
    ensures
        forall|c: int| 0 <= c < bm.capacity() ==> #[trigger] bm.bit(db, c) == bm.bit(da, c),
{
    assert forall|c: int| 0 <= c < bm.capacity() implies #[trigger] bm.bit(db, c) == bm.bit(da, c) by {
        let q = c / (BLOCK_BITS as int);
        assert(0 <= q < bm.len()) by (nonlinear_arith)
            requires q == c / (BLOCK_BITS as int), 0 <= c < bm.len() * BLOCK_BITS, BLOCK_BITS > 0;
        assert(db[bm.start() + q] == da[bm.start() + q]);
    }
}

/// Every data block of an inode is one of the blocks it owns.
proof fn lemma_data_block_owned(s: DiskInode, d: Seq<Seq<u8>>, i: int)
    requires
        s.nblocks() <= INDIRECT1_BOUND + INDIRECT2_COUNT,
        0 <= i < s.nblocks(),
    ensures
        s.grow(d, s.nblocks()).contains(s.data_block(d, i)),
{
    lemma_owned_is_grow(s, d, s.nblocks());
    lemma_owned_positions(s, d, i, 0);
    assert(s.grow(d, s.nblocks())[data_pos(i)] == s.data_block(d, i));
}

/// A file or directory: where its disk inode lies
pub struct Inode {
    block_id: usize,
    block_offset: usize,
}

impl Inode {
    /// The block holding the disk inode.
    pub closed spec fn block(&self) -> int {
        self.block_id as int
    }

    /// Where the disk inode starts in its block.
    pub closed spec fn offset(&self) -> int {
        self.block_offset as int
    }

    /// A disk inode lies where this inode says, on `disk`.
    pub open spec fn valid(&self, disk: Seq<Seq<u8>>) -> bool {
        exists|d: DiskInode| stores_inode(disk, self.block(), self.offset(), d)
    }

    /// The disk inode of this inode on `disk`.
    pub open spec fn disk_inode(&self, disk: Seq<Seq<u8>>) -> DiskInode {
        choose|d: DiskInode| stores_inode(disk, self.block(), self.offset(), d)
    }

    /// The inode whose disk inode lies at `block_offset` of block `block_id`
    pub fn new(block_id: u32, block_offset: usize) -> (i: Self)
        ensures
            i.block() == block_id,
            i.offset() == block_offset,
    {
        Self { block_id: block_id as usize, block_offset }
    }

    /// Read the disk inode
    fn read_disk_inode(&self, block_device: &mut BlockCacheManager) -> (d: DiskInode)
        requires
            old(block_device).wf(),
            self.valid(old(block_device).view()),
        ensures
            final(block_device).wf(),
            final(block_device).view() == old(block_device).view(),
            d == self.disk_inode(old(block_device).view()),
            stores_inode(old(block_device).view(), self.block(), self.offset(), d),
    {
        let ghost disk = block_device.view();
        let ghost w = self.disk_inode(disk);
        let bytes = block_device.read(self.block_id, self.block_offset, DISK_INODE_SIZE);
        match DiskInode::from_bytes(bytes.as_slice()) {
            Some(d) => {
                proof {
                    lemma_disk_inode_bytes_injective(d, w);
                }
                d
            },
            None => {
                assert(disk_inode_bytes(w) == bytes@);
                DiskInode::new(DiskInodeKind::File)
            },
        }
    }
}

impl Inode {
    /// Find the entry named `name` in this directory: the inode it names,
    /// the first one with that name; `None` when no entry has it
    pub fn find(&self, name: &str, fs: &mut EasyFileSystem) -> (r: Option<Inode>)
        requires
            old(fs).block_device.wf(),
            self.valid(old(fs).block_device.view()),
            self.disk_inode(old(fs).block_device.view()).readable(old(fs).block_device.view()),
            self.disk_inode(old(fs).block_device.view()).kind == DiskInodeKind::Directory,
            dir_lookup(self.disk_inode(old(fs).block_device.view()), old(fs).block_device.view(), name.spec_bytes())
                matches Some(id) ==> old(fs).inode_area_start_block + (id as int) / (INODES_PER_BLOCK as int) <= u32::MAX,
        ensures
            final(fs).block_device.wf(),
            final(fs).block_device.view() == old(fs).block_device.view(),
            final(fs).inode_bitmap == old(fs).inode_bitmap,
            final(fs).data_bitmap == old(fs).data_bitmap,
            final(fs).inode_area_start_block == old(fs).inode_area_start_block,
            final(fs).data_area_start_block == old(fs).data_area_start_block,
            ({
                let disk = old(fs).block_device.view();
                match dir_lookup(self.disk_inode(disk), disk, name.spec_bytes()) {
                    Some(id) => r matches Some(i) && i.block() == old(fs).inode_area_start_block + (id as int) / (INODES_PER_BLOCK as int)
                        && i.offset() == ((id as int) % (INODES_PER_BLOCK as int)) * DISK_INODE_SIZE,
                    None => r is None,
                }
            }),
    {
        self.find_by_name(name.as_bytes(), fs)
    }

    /// Find the entry whose name is the bytes `name` in this directory (see
    /// [`Inode::find`])
    pub(crate) fn find_by_name(&self, name: &[u8], fs: &mut EasyFileSystem) -> (r: Option<Inode>)
        requires
            old(fs).block_device.wf(),
            self.valid(old(fs).block_device.view()),
            self.disk_inode(old(fs).block_device.view()).readable(old(fs).block_device.view()),
            self.disk_inode(old(fs).block_device.view()).kind == DiskInodeKind::Directory,
            dir_lookup(self.disk_inode(old(fs).block_device.view()), old(fs).block_device.view(), name@)
                matches Some(id) ==> old(fs).inode_area_start_block + (id as int) / (INODES_PER_BLOCK as int) <= u32::MAX,
        ensures
            final(fs).block_device.wf(),
            final(fs).block_device.view() == old(fs).block_device.view(),
            final(fs).inode_bitmap == old(fs).inode_bitmap,
            final(fs).data_bitmap == old(fs).data_bitmap,
            final(fs).inode_area_start_block == old(fs).inode_area_start_block,
            final(fs).data_area_start_block == old(fs).data_area_start_block,
            r == (match dir_lookup(self.disk_inode(old(fs).block_device.view()), old(fs).block_device.view(), name@) {
                Some(id) => Some(inode_of(old(fs).inode_area_start_block as int, id as int)),
                None => None,
            }),
            r matches Some(i) ==> i.block() == old(fs).inode_area_start_block
                + (dir_lookup(self.disk_inode(old(fs).block_device.view()), old(fs).block_device.view(), name@)->0 as int)
                / (INODES_PER_BLOCK as int),
            r matches Some(i) ==> i.offset() == ((dir_lookup(self.disk_inode(old(fs).block_device.view()),
                old(fs).block_device.view(), name@)->0 as int) % (INODES_PER_BLOCK as int)) * DISK_INODE_SIZE,
    {
        let d = self.read_disk_inode(&mut fs.block_device);
        match find_inode_id(name, &d, &mut fs.block_device) {
            Some(inode_id) => {
                let (block_id, block_offset) = fs.disk_inode_pos(inode_id);
                Some(Inode::new(block_id, block_offset))
            },
            None => None,
        }
    }

    /// Read from this file at `offset` into `buf`: the number of bytes read,
    /// up to the end of the file (see [`DiskInode::read_at`])
    pub fn read_at(&self, offset: usize, buf: &mut [u8], fs: &mut EasyFileSystem) -> (n: usize)
        requires
            old(fs).block_device.wf(),
            self.valid(old(fs).block_device.view()),
            self.disk_inode(old(fs).block_device.view()).readable(old(fs).block_device.view()),
            offset + old(buf)@.len() <= usize::MAX,
        ensures
            final(fs).block_device.wf(),
            final(fs).block_device.view() == old(fs).block_device.view(),
            final(fs).inode_bitmap == old(fs).inode_bitmap,
            final(fs).data_bitmap == old(fs).data_bitmap,
            final(fs).inode_area_start_block == old(fs).inode_area_start_block,
            final(fs).data_area_start_block == old(fs).data_area_start_block,
            ({
                let disk = old(fs).block_device.view();
                let d = self.disk_inode(disk);
                &&& n == (if offset < d.size && old(buf)@.len() > 0 {
                    min_int(offset + old(buf)@.len(), d.size as int) - offset
                } else {
                    0
                })
                &&& final(buf)@.len() == old(buf)@.len()
                &&& forall|k: int| 0 <= k < n ==> #[trigger] final(buf)@[k] == d.file_byte(disk, offset + k)
                &&& forall|k: int| n <= k < final(buf)@.len() ==> #[trigger] final(buf)@[k] == old(buf)@[k]
            }),
    {
        let d = self.read_disk_inode(&mut fs.block_device);
        d.read_at(offset, buf, &mut fs.block_device)
    }

    /// Write `buf` into the file or directory at `offset`, growing it first
    /// when it ends before `offset + buf.len()` (the blocks it takes are
    /// allocated from the data bitmap, see [`EasyFileSystem::alloc_data`]):
    /// every byte is written, and a following read at `offset` gives `buf`
    /// back. When it does not grow, its other bytes keep their values; when
    /// it grows, that is left unsaid, as [`DiskInode::increase_size`] does
    /// not say which of the blocks the file owned it writes
    #[verifier::rlimit(50)]
    fn write_data(&self, offset: usize, buf: &[u8], fs: &mut EasyFileSystem) -> (n: usize)
        requires
            file_ok(*old(fs), *self),
            offset + buf@.len() <= u32::MAX,
            ({
                let d = self.disk_inode(old(fs).block_device.view());
                let size = size_after_write(d.size as int, offset as int, buf@.len() as int);
                &&& data_blocks(size) <= INDIRECT1_BOUND + INDIRECT2_COUNT
                &&& free_data(*old(fs)).len() >= total_blocks(size) - total_blocks(d.size as int)
            }),
        ensures
            n == buf@.len(),
            file_ok(*final(fs), *self),
            final(fs).inode_bitmap == old(fs).inode_bitmap,
            final(fs).data_bitmap == old(fs).data_bitmap,
            final(fs).inode_area_start_block == old(fs).inode_area_start_block,
            final(fs).data_area_start_block == old(fs).data_area_start_block,
            ({
                let disk0 = old(fs).block_device.view();
                let disk = final(fs).block_device.view();
                let d0 = self.disk_inode(disk0);
                let d = self.disk_inode(disk);
                &&& d.size == size_after_write(d0.size as int, offset as int, n as int)
                &&& d.kind == d0.kind
                &&& d.readable(disk)
                &&& forall|k: int| 0 <= k < n ==> #[trigger] d.file_byte(disk, offset + k) == buf@[k]
                &&& offset + n <= d0.size ==> forall|k: int| 0 <= k < d0.size && !(offset <= k < offset + n)
                    ==> #[trigger] d.file_byte(disk, k) == d0.file_byte(disk0, k)
            }),
    {
        let ghost disk0 = fs.block_device.view();
        let ghost start = fs.data_area_start_block as int;
        let ghost cap = fs.data_bitmap.capacity();
        let ghost dbm = fs.data_bitmap;
        proof {
            fs.block_device.lemma_wf();
            dbm.lemma_nonneg();
        }
        let mut d = self.read_disk_inode(&mut fs.block_device);
        let ghost d0 = d;
        let ghost n0 = d0.nblocks();
        let ghost g0 = d0.grow(disk0, n0);
        let end = offset + buf.len();
        if end as u32 > d.size {
            let needed = d.blocks_num_needed(end as u32);
            proof {
                lemma_total_blocks_is_owned_len(d0.size as int);
                lemma_total_blocks_is_owned_len(end as int);
                vstd::set_lib::lemma_int_range(0, cap);
                vstd::set_lib::lemma_len_subset(free_data(*fs), vstd::set_lib::set_int_range(0, cap));
            }
            let mut v: Vec<u32> = Vec::new();
            let mut t: u32 = 0;
            while t < needed
                invariant
                    fs.block_device.wf(),
                    fs.inode_bitmap == old(fs).inode_bitmap,
                    fs.data_bitmap == dbm,
                    fs.inode_area_start_block == old(fs).inode_area_start_block,
                    fs.data_area_start_block == old(fs).data_area_start_block,
                    start == fs.data_area_start_block,
                    cap == dbm.capacity(),
                    dbm.start() >= 0,
                    dbm.fits(disk0),
                    dbm.start() + dbm.len() <= start,
                    start + cap <= disk0.len(),
                    start + cap <= u32::MAX,
                    t <= needed,
                    fs.block_device.view().len() == disk0.len(),
                    forall|b: int| 0 <= b < disk0.len() && !(dbm.start() <= b < dbm.start() + dbm.len())
                        ==> #[trigger] fs.block_device.view()[b] == disk0[b],
                    forall|c: int| 0 <= c < cap && dbm.bit(disk0, c) ==> #[trigger] dbm.bit(fs.block_device.view(), c),
                    v@.len() == t,
                    v@.no_duplicates(),
                    forall|i: int| 0 <= i < t ==> start <= #[trigger] v@[i] < start + cap,
                    forall|i: int| 0 <= i < t ==> dbm.bit(fs.block_device.view(), #[trigger] v@[i] - start),
                    forall|i: int| 0 <= i < t ==> !dbm.bit(disk0, #[trigger] v@[i] - start),
                    free_data(*fs).finite(),
                    free_data(*fs).len() + t >= needed,
                decreases needed - t,
            {
                let ghost f = free_data(*fs);
                let ghost dt = fs.block_device.view();
                proof {
                    assert(f.len() > 0);
                    let c = f.choose();
                    assert(f.contains(c));
                    assert(dbm.fits(dt));
                }
                let id = fs.alloc_data();
                proof {
                    let bit = id - start;
                    assert(free_data(*fs) =~= f.remove(bit));
                    assert(f.contains(bit));
                    assert forall|b: int| 0 <= b < disk0.len() && !(dbm.start() <= b < dbm.start() + dbm.len())
                        implies #[trigger] fs.block_device.view()[b] == disk0[b] by {
                        assert(fs.block_device.view()[b] == dt[b]);
                    }
                    assert forall|i: int| 0 <= i < t implies #[trigger] v@[i] != id by {
                        assert(dbm.bit(dt, v@[i] - start));
                    }
                }
                v.push(id);
                t = t + 1;
                proof {
                    assert forall|i: int, j: int| 0 <= i < j < v@.len() implies v@[i] != v@[j] by {
                        if j == v@.len() - 1 {
                            assert(v@[j] == id);
                        }
                    }
                }
            }
            let ghost disk_a = fs.block_device.view();
            proof {
                assert forall|k: int| 0 <= k < g0.len() implies {
                    let b = #[trigger] g0[k] as int;
                    disk0[b] == disk_a[b]
                } by {
                    assert(start <= g0[k] < start + cap);
                }
                lemma_same_owned_same_index(d0, disk0, disk_a);
                lemma_grow_same_index(d0, disk0, disk_a);
                let l = g0 + v@.subrange(0, needed as int);
                assert(v@.subrange(0, needed as int) =~= v@);
                assert forall|i: int, j: int| 0 <= i < j < l.len() implies l[i] != l[j] by {
                    if j >= g0.len() && i < g0.len() {
                        assert(dbm.bit(disk0, l[i] - start));
                        assert(!dbm.bit(disk0, v@[j - g0.len()] - start));
                    }
                    if i >= g0.len() {
                        assert(v@[i - g0.len()] != v@[j - g0.len()]);
                    }
                }
            }
            let ghost vs = v@;
            d.increase_size(end as u32, v, &mut fs.block_device);
            proof {
                let disk1 = fs.block_device.view();
                let g1 = d.grow(disk1, d.nblocks());
                assert(vs.subrange(0, needed as int) =~= vs);
                assert(g1 == g0 + vs);
                assert forall|b: int| dbm.start() <= b < dbm.start() + dbm.len() implies #[trigger] disk1[b] == disk_a[b] by {
                    if (g0 + vs).contains(b as u32) {
                        let k = choose|k: int| 0 <= k < (g0 + vs).len() && (g0 + vs)[k] == b as u32;
                        if k < g0.len() {
                            assert(start <= g0[k]);
                        } else {
                            assert(start <= vs[k - g0.len()]);
                        }
                    }
                }
                assert(dbm.fits(disk_a));
                lemma_bits_kept(dbm, disk_a, disk1);
                assert forall|k: int| 0 <= k < g1.len() implies start <= #[trigger] g1[k] < start + cap by {
                    if k < g0.len() {
                        assert(g1[k] == g0[k]);
                    } else {
                        assert(g1[k] == vs[k - g0.len()]);
                    }
                }
                assert forall|k: int| 0 <= k < g1.len() implies dbm.bit(disk1, #[trigger] g1[k] - start) by {
                    if k < g0.len() {
                        assert(g1[k] == g0[k]);
                        assert(dbm.bit(disk0, g0[k] - start));
                    } else {
                        assert(g1[k] == vs[k - g0.len()]);
                    }
                }
            }
        } else {
            proof {
                assert(d == d0);
            }
        }
        let ghost disk1 = fs.block_device.view();
        let ghost n1 = d.nblocks();
        let ghost g1 = d.grow(disk1, n1);
        assert(d.size == size_after_write(d0.size as int, offset as int, buf@.len() as int));
        assert(g1.no_duplicates());
        assert(forall|k: int| 0 <= k < g1.len() ==> start <= #[trigger] g1[k] < start + cap);
        assert(forall|k: int| 0 <= k < g1.len() ==> dbm.bit(disk1, #[trigger] g1[k] - start));
        proof {
            lemma_distinct_growth_readable(d, disk1);
        }
        let n = if buf.len() > 0 {
            proof {
            assert(d.reaches(disk1, (offset / BLOCK_SIZE) as int)) by {
                assert(((offset / BLOCK_SIZE) as int) < n1) by (nonlinear_arith)
                    requires offset < d.size, n1 == (d.size + 511) / 512, BLOCK_SIZE == 512;
            }
            assert(d.data_block(disk1, (offset / BLOCK_SIZE) as int) < disk1.len()) by {
                assert(((offset / BLOCK_SIZE) as int) < n1) by (nonlinear_arith)
                    requires offset < d.size, n1 == (d.size + 511) / 512, BLOCK_SIZE == 512;
            }
            }
            d.write_at(offset, buf, &mut fs.block_device)
        } else {
            0
        };
        let ghost disk2 = fs.block_device.view();
        proof {
            lemma_data_writes_keep_index(d, disk1, disk2);
            lemma_grow_same_index(d, disk1, disk2);
            assert forall|b: int| dbm.start() <= b < dbm.start() + dbm.len() implies #[trigger] disk2[b] == disk1[b] by {
                if d.is_data_block(disk1, b) {
                    let i = choose|i: int| 0 <= i < n1 && d.data_block(disk1, i) == b;
                    lemma_data_block_owned(d, disk1, i);
                    let k = choose|k: int| 0 <= k < g1.len() && g1[k] == d.data_block(disk1, i);
                    assert(start <= g1[k]);
                }
            }
            lemma_bits_kept(dbm, disk1, disk2);
        }
        let bytes = d.to_bytes();
        proof {
            assert(self.block() < disk2.len());
        }
        fs.block_device.modify(self.block_id, self.block_offset, bytes.as_slice());
        let ghost disk3 = fs.block_device.view();
        proof {
            fs.block_device.lemma_wf();
            let blk = self.block();
            assert(disk3[blk].subrange(self.offset(), self.offset() + DISK_INODE_SIZE) =~= disk_inode_bytes(d));
            assert(stores_inode(disk3, blk, self.offset(), d));
            let w = self.disk_inode(disk3);
            lemma_disk_inode_bytes_injective(w, d);
            assert(w == d);
            assert forall|k: int| 0 <= k < g1.len() implies {
                let b = #[trigger] g1[k] as int;
                disk2[b] == disk3[b]
            } by {
                assert(start <= g1[k]);
            }
            lemma_same_owned_same_index(d, disk2, disk3);
            lemma_grow_same_index(d, disk2, disk3);
            assert forall|b: int| dbm.start() <= b < dbm.start() + dbm.len() implies #[trigger] disk3[b] == disk2[b] by {}
            lemma_bits_kept(dbm, disk2, disk3);
            lemma_distinct_growth_readable(d, disk3);
            assert forall|k: int| 0 <= k < d.size implies #[trigger] d.file_byte(disk3, k) == d.file_byte(disk2, k) by {
                let i = k / BLOCK_SIZE as int;
                assert(0 <= i < n1) by (nonlinear_arith)
                    requires 0 <= k < d.size, i == k / 512, n1 == (d.size + 511) / 512;
                lemma_data_block_owned(d, disk2, i);
                let j = choose|j: int| 0 <= j < g1.len() && g1[j] == d.data_block(disk2, i);
                assert(start <= g1[j]);
            }
        }
        n
    }

    /// Write `buf` into this file, a regular file, at `offset` (see
    /// [`Inode::write_data`] for what is written and what a following read
    /// gives back), then write every cached block back to the device
    pub fn write_at(&self, offset: usize, buf: &[u8], fs: &mut EasyFileSystem) -> (n: usize)
        requires
            file_ok(*old(fs), *self),
            self.disk_inode(old(fs).block_device.view()).kind == DiskInodeKind::File,
            offset + buf@.len() <= u32::MAX,
            ({
                let d = self.disk_inode(old(fs).block_device.view());
                let size = size_after_write(d.size as int, offset as int, buf@.len() as int);
                &&& data_blocks(size) <= INDIRECT1_BOUND + INDIRECT2_COUNT
                &&& free_data(*old(fs)).len() >= total_blocks(size) - total_blocks(d.size as int)
            }),
        ensures
            n == buf@.len(),
            file_ok(*final(fs), *self),
            final(fs).inode_bitmap == old(fs).inode_bitmap,
            final(fs).data_bitmap == old(fs).data_bitmap,
            final(fs).inode_area_start_block == old(fs).inode_area_start_block,
            final(fs).data_area_start_block == old(fs).data_area_start_block,
            final(fs).block_device.device_view() == final(fs).block_device.view(),
            ({
                let disk0 = old(fs).block_device.view();
                let disk = final(fs).block_device.view();
                let d0 = self.disk_inode(disk0);
                let d = self.disk_inode(disk);
                &&& d.size == size_after_write(d0.size as int, offset as int, n as int)
                &&& d.kind == d0.kind
                &&& d.readable(disk)
                &&& forall|k: int| 0 <= k < n ==> #[trigger] d.file_byte(disk, offset + k) == buf@[k]
                &&& offset + n <= d0.size ==> forall|k: int| 0 <= k < d0.size && !(offset <= k < offset + n)
                    ==> #[trigger] d.file_byte(disk, k) == d0.file_byte(disk0, k)
            }),
    {
        let n = self.write_data(offset, buf, fs);
        fs.block_device.sync_all();
        n
    }

    /// Clear this file: its size becomes 0 and every block it owned (see
    /// [`DiskInode::grow`]) is given back, cleared to zero with its bit of
    /// the data bitmap cleared (see [`EasyFileSystem::dealloc_data`]); the
    /// other bits keep their values. Every cached block is then written
    /// back to the device
    pub fn clear(&self, fs: &mut EasyFileSystem)
        requires
            file_ok(*old(fs), *self),
        ensures
            file_ok(*final(fs), *self),
            final(fs).block_device.device_view() == final(fs).block_device.view(),
            final(fs).inode_bitmap == old(fs).inode_bitmap,
            final(fs).data_bitmap == old(fs).data_bitmap,
            final(fs).inode_area_start_block == old(fs).inode_area_start_block,
            final(fs).data_area_start_block == old(fs).data_area_start_block,
            ({
                let disk0 = old(fs).block_device.view();
                let disk = final(fs).block_device.view();
                let d0 = self.disk_inode(disk0);
                let d = self.disk_inode(disk);
                let g0 = d0.grow(disk0, d0.nblocks());
                let start = old(fs).data_area_start_block as int;
                let bm = old(fs).data_bitmap;
                &&& d.size == 0
                &&& d.kind == d0.kind
                &&& forall|k: int| 0 <= k < g0.len() ==> !bm.bit(disk, #[trigger] g0[k] - start)
                    && disk[g0[k] as int] == zero_block()
                &&& forall|c: int| 0 <= c < bm.capacity() && !g0.contains((c + start) as u32)
                    ==> #[trigger] bm.bit(disk, c) == bm.bit(disk0, c)
            }),
    {
        let ghost disk0 = fs.block_device.view();
        let ghost start = fs.data_area_start_block as int;
        let ghost dbm = fs.data_bitmap;
        let mut d = self.read_disk_inode(&mut fs.block_device);
        let ghost d0 = d;
        let ghost n0 = d0.nblocks();
        let ghost g0 = d0.grow(disk0, n0);
        proof {
            fs.block_device.lemma_wf();
            dbm.lemma_nonneg();
            lemma_distinct_growth_readable(d0, disk0);
            if n0 > 27 {
                assert(d0.reaches(disk0, 27));
            }
            if n0 > INDIRECT1_BOUND {
                assert(d0.reaches(disk0, INDIRECT1_BOUND as int));
            }
            assert forall|j: int| 0 <= j && INDIRECT1_BOUND + j * 128 < n0 implies
                #[trigger] u32_at(disk0[d0.indirect2 as int], j * 4) < disk0.len() by {
                let k = INDIRECT1_BOUND + j * 128;
                assert((k - INDIRECT1_BOUND) / 128 == j) by (nonlinear_arith)
                    requires k == INDIRECT1_BOUND + j * 128, j >= 0;
                assert(d0.reaches(disk0, k));
            }
            lemma_owned_is_grow(d0, disk0, n0);
        }
        let v = d.clear_size(&mut fs.block_device);
        let bytes = d.to_bytes();
        fs.block_device.modify(self.block_id, self.block_offset, bytes.as_slice());
        let ghost disk1 = fs.block_device.view();
        proof {
            let blk = self.block();
            assert(disk1[blk].subrange(self.offset(), self.offset() + DISK_INODE_SIZE) =~= disk_inode_bytes(d));
            assert forall|k: int| 0 <= k < g0.len() implies dbm.bit(disk1, #[trigger] g0[k] - start) by {
                assert(disk1 =~= disk0.update(blk, disk1[blk]));
                lemma_bits_kept(dbm, disk0, disk1);
            }
            assert(disk1 =~= disk0.update(blk, disk1[blk]));
            lemma_bits_kept(dbm, disk0, disk1);
        }
        let mut i: usize = 0;
        while i < v.len()
            invariant
                fs.block_device.wf(),
                fs.inode_bitmap == old(fs).inode_bitmap,
                fs.data_bitmap == dbm,
                fs.inode_area_start_block == old(fs).inode_area_start_block,
                fs.data_area_start_block == old(fs).data_area_start_block,
                start == fs.data_area_start_block,
                file_ok(*old(fs), *self),
                disk0 == old(fs).block_device.view(),
                dbm == old(fs).data_bitmap,
                g0 == self.disk_inode(disk0).grow(disk0, self.disk_inode(disk0).nblocks()),
                dbm.start() >= 0,
                v@ == g0,
                i <= v@.len(),
                fs.block_device.view().len() == disk0.len(),
                fs.block_device.view()[self.block()] == disk1[self.block()],
                forall|k: int| 0 <= k < i ==> !dbm.bit(fs.block_device.view(), #[trigger] g0[k] - start)
                    && fs.block_device.view()[g0[k] as int] == zero_block(),
                forall|k: int| i <= k < g0.len() ==> dbm.bit(fs.block_device.view(), #[trigger] g0[k] - start),
                forall|c: int| 0 <= c < dbm.capacity() && !g0.contains((c + start) as u32)
                    ==> #[trigger] dbm.bit(fs.block_device.view(), c) == dbm.bit(disk0, c),
            decreases v@.len() - i,
        {
            let ghost dt = fs.block_device.view();
            let b = v[i];
            proof {
                assert(start <= g0[i as int] < start + dbm.capacity());
            }
            fs.dealloc_data(b);
            proof {
                let dn = fs.block_device.view();
                assert forall|k: int| 0 <= k < i + 1 implies !dbm.bit(dn, #[trigger] g0[k] - start)
                    && dn[g0[k] as int] == zero_block() by {
                    if k < i {
                        assert(g0[k] != g0[i as int]);
                        assert(start <= g0[k]);
                        assert(dn[g0[k] as int] == dt[g0[k] as int]);
                    }
                }
                assert forall|k: int| i + 1 <= k < g0.len() implies dbm.bit(dn, #[trigger] g0[k] - start) by {
                    assert(g0[k] != g0[i as int]);
                    assert(start <= g0[k] < start + dbm.capacity());
                }
                assert forall|c: int| 0 <= c < dbm.capacity() && !g0.contains((c + start) as u32)
                    implies #[trigger] dbm.bit(dn, c) == dbm.bit(disk0, c) by {
                    if c == g0[i as int] - start {
                        assert(g0[i as int] == (c + start) as u32);
                        assert(g0.contains((c + start) as u32));
                    }
                }
                assert(dn[self.block()] == dt[self.block()]);
            }
            i = i + 1;
        }
        proof {
            let disk = fs.block_device.view();
            assert(stores_inode(disk, self.block(), self.offset(), d));
            let w = self.disk_inode(disk);
            lemma_disk_inode_bytes_injective(w, d);
            assert(d.grow(disk, 0) =~= Seq::<u32>::empty());
        }
        fs.block_device.sync_all();
    }

    /// Give this directory its first two entries: "." naming itself and
    /// ".." naming `parent_inode_id` (see [`Inode::write_at`])
    pub fn set_default_dirent(&self, parent_inode_id: u32, fs: &mut EasyFileSystem)
        requires
            file_ok(*old(fs), *self),
            self.block() <= u32::MAX,
            old(fs).inode_area_start_block <= self.block(),
            (self.block() - old(fs).inode_area_start_block) * INODES_PER_BLOCK + self.offset() / DISK_INODE_SIZE as int
                <= u32::MAX,
            ({
                let d = self.disk_inode(old(fs).block_device.view());
                let size = size_after_write(d.size as int, 0, 2 * DIRENT_SIZE as int);
                &&& data_blocks(size) <= INDIRECT1_BOUND + INDIRECT2_COUNT
                &&& free_data(*old(fs)).len() >= total_blocks(size) - total_blocks(d.size as int)
            }),
        ensures
            file_ok(*final(fs), *self),
            final(fs).inode_area_start_block == old(fs).inode_area_start_block,
            final(fs).data_area_start_block == old(fs).data_area_start_block,
            final(fs).data_bitmap == old(fs).data_bitmap,
            ({
                let disk0 = old(fs).block_device.view();
                let disk = final(fs).block_device.view();
                let d0 = self.disk_inode(disk0);
                let d = self.disk_inode(disk);
                let id = (self.block() - old(fs).inode_area_start_block) * INODES_PER_BLOCK
                    + self.offset() / DISK_INODE_SIZE as int;
                &&& d.size == size_after_write(d0.size as int, 0, 2 * DIRENT_SIZE as int)
                &&& d.kind == d0.kind
                &&& dirent_name(d, disk, 0) == seq![46u8]
                &&& dirent_inode(d, disk, 0) == id
                &&& dirent_name(d, disk, 1) == seq![46u8, 46u8]
                &&& dirent_inode(d, disk, 1) == parent_inode_id
            }),
    {
        let id = self.inode_id(fs);
        proof {
            reveal_strlit(".");
            reveal_strlit("..");
            vstd::utf8::is_ascii_chars_encode_utf8(".".view());
            vstd::utf8::is_ascii_chars_encode_utf8("..".view());
            assert(".".spec_bytes() =~= seq![46u8]);
            assert("..".spec_bytes() =~= seq![46u8, 46u8]);
        }
        let dot = DirEntry::new(".", id);
        let dotdot = DirEntry::new("..", parent_inode_id);
        let mut bytes = dot.as_bytes();
        let tail = dotdot.as_bytes();
        bytes.extend_from_slice(tail.as_slice());
        self.write_data(0, bytes.as_slice(), fs);
        proof {
            let disk = fs.block_device.view();
            let d = self.disk_inode(disk);
            assert(dirent_bytes(d, disk, 0) =~= dot.name@ + vstd::bytes::spec_u32_to_le_bytes(id));
            assert forall|j: int| 0 <= j < 32 implies #[trigger] dirent_bytes(d, disk, 1)[j] == bytes@[32 + j] by {
                assert(d.file_byte(disk, 0 + (32 + j)) == bytes@[32 + j]);
                assert(1 * (DIRENT_SIZE as int) + j == 32 + j);
            }
            assert(dirent_bytes(d, disk, 1) =~= dotdot.name@ + vstd::bytes::spec_u32_to_le_bytes(parent_inode_id));
            vstd::bytes::lemma_auto_spec_u32_to_from_le_bytes();
            assert((dot.name@ + vstd::bytes::spec_u32_to_le_bytes(id)).subrange(0, 28) =~= dot.name@);
            assert((dot.name@ + vstd::bytes::spec_u32_to_le_bytes(id)).subrange(28, 32) =~= vstd::bytes::spec_u32_to_le_bytes(id));
            assert((dotdot.name@ + vstd::bytes::spec_u32_to_le_bytes(parent_inode_id)).subrange(0, 28) =~= dotdot.name@);
            assert((dotdot.name@ + vstd::bytes::spec_u32_to_le_bytes(parent_inode_id)).subrange(28, 32)
                =~= vstd::bytes::spec_u32_to_le_bytes(parent_inode_id));
        }
    }

    /// The size of this file in bytes
    pub fn file_size(&self, fs: &mut EasyFileSystem) -> (s: u32)
        requires
            old(fs).block_device.wf(),
            self.valid(old(fs).block_device.view()),
        ensures
            final(fs).block_device.wf(),
            final(fs).block_device.view() == old(fs).block_device.view(),
            final(fs).inode_bitmap == old(fs).inode_bitmap,
            final(fs).data_bitmap == old(fs).data_bitmap,
            final(fs).inode_area_start_block == old(fs).inode_area_start_block,
            final(fs).data_area_start_block == old(fs).data_area_start_block,
            s == self.disk_inode(old(fs).block_device.view()).size,
    {
        self.read_disk_inode(&mut fs.block_device).size
    }

    /// Whether this inode is a directory
    pub fn is_dir(&self, fs: &mut EasyFileSystem) -> (b: bool)
        requires
            old(fs).block_device.wf(),
            self.valid(old(fs).block_device.view()),
        ensures
            final(fs).block_device.wf(),
            final(fs).block_device.view() == old(fs).block_device.view(),
            final(fs).inode_bitmap == old(fs).inode_bitmap,
            final(fs).data_bitmap == old(fs).data_bitmap,
            final(fs).inode_area_start_block == old(fs).inode_area_start_block,
            final(fs).data_area_start_block == old(fs).data_area_start_block,
            b == (self.disk_inode(old(fs).block_device.view()).kind == DiskInodeKind::Directory),
    {
        self.read_disk_inode(&mut fs.block_device).is_dir()
    }

    /// Whether this inode is a regular file
    pub fn is_file(&self, fs: &mut EasyFileSystem) -> (b: bool)
        requires
            old(fs).block_device.wf(),
            self.valid(old(fs).block_device.view()),
        ensures
            final(fs).block_device.wf(),
            final(fs).block_device.view() == old(fs).block_device.view(),
            final(fs).inode_bitmap == old(fs).inode_bitmap,
            final(fs).data_bitmap == old(fs).data_bitmap,
            final(fs).inode_area_start_block == old(fs).inode_area_start_block,
            final(fs).data_area_start_block == old(fs).data_area_start_block,
            b == (self.disk_inode(old(fs).block_device.view()).kind == DiskInodeKind::File),
    {
        self.read_disk_inode(&mut fs.block_device).is_file()
    }

    /// The inode number of this inode (see [`EasyFileSystem::disk_inode_id`])
    pub fn inode_id(&self, fs: &EasyFileSystem) -> (id: u32)
        requires
            self.block() <= u32::MAX,
            fs.inode_area_start_block <= self.block(),
            (self.block() - fs.inode_area_start_block) * INODES_PER_BLOCK + self.offset() / DISK_INODE_SIZE as int
                <= u32::MAX,
        ensures
            id == (self.block() - fs.inode_area_start_block) * INODES_PER_BLOCK + self.offset() / DISK_INODE_SIZE as int,
    {
        fs.disk_inode_id(self.block_id as u32, self.block_offset)
    }
}

impl EasyFileSystem {
    /// The root directory: inode 0
    pub fn root_inode(&self) -> (i: Inode)
        ensures
            i.block() == self.inode_area_start_block,
            i.offset() == 0,
    {
        let (block_id, block_offset) = self.disk_inode_pos(0);
        Inode::new(block_id, block_offset)
    }
}

/// The root directory of a new file system holds nothing: where
/// [`EasyFileSystem::create`] leaves an empty directory inode at the start of
/// the inode area, the root inode reads as that empty directory and no
/// name is found in it.
pub proof fn lemma_new_root_is_empty(disk: Seq<Seq<u8>>, root: Inode, name: Seq<u8>)
    requires
        0 <= root.block() < disk.len(),
        root.offset() == 0,
        exists|d: DiskInode| #[trigger] is_empty_dir(d)
            && disk[root.block()] == splice(zero_block(), 0, disk_inode_bytes(d)),
    ensures
        root.valid(disk),
        is_empty_dir(root.disk_inode(disk)),
        root.disk_inode(disk).readable(disk),
        dir_lookup(root.disk_inode(disk), disk, name) is None,
{
    let d = choose|d: DiskInode| #[trigger] is_empty_dir(d)
        && disk[root.block()] == splice(zero_block(), 0, disk_inode_bytes(d));
    let bytes = disk_inode_bytes(d);
    assert(bytes.len() == 124) by {
        super::layout::lemma_disk_inode_len(d);
    }
    assert(disk[root.block()].subrange(0, 124) =~= bytes);
    assert(stores_inode(disk, root.block(), 0, d));
    let w = root.disk_inode(disk);
    lemma_disk_inode_bytes_injective(w, d);
    assert(dirent_count(d) == 0);
}

} // verus!
