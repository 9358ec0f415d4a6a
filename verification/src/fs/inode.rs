//! Files of the easy file system opened by a process.

use vstd::prelude::*;
use vstd::string::StringSliceAdditionalSpecFns;
use crate::easy_fs::efs::{EasyFileSystem, DISK_INODE_SIZE, INODES_PER_BLOCK};
use crate::easy_fs::layout::DiskInodeKind;
use crate::easy_fs::layout::{min_int, slice_range};
use crate::mm::address::PhysMem;
use crate::mm::page_table::PageTable;
use crate::mm::{byte_at, injective_on, phys_of, read_user_bytes, readable, shares_place, write_user_bytes};
use crate::easy_fs::config::{INDIRECT1_BOUND, INDIRECT2_COUNT};
use crate::easy_fs::layout::{data_blocks, total_blocks};
use crate::easy_fs::vfs::{
    file_ok, free_data, inode_of, lemma_comp_len, lemma_inode_eq, lemma_inode_of, lemma_walk_numbered, size_after_write,
    step_ok, walk, walk_ok, Inode,
};
use super::{File, FileHandle, FileKind, OpenFlags, Stat, O_CREATE, O_RDONLY, O_RDWR, O_TRUNC, O_WRONLY, STAT_MODE_DIR,
    STAT_MODE_LNK, STAT_MODE_REG};

verus! {

/// An inode opened by a process: how it may be used and where the next
/// read or write starts
pub struct OSInode {
    readable: bool,
    writable: bool,
    offset: usize,
    inode: Inode,
}

/// The bytes of the file of `inode` on `disk` from `from` up to its end.
pub open spec fn bytes_from(inode: Inode, disk: Seq<Seq<u8>>, from: int) -> Seq<u8> {
    let d = inode.disk_inode(disk);
    if from < d.size {
        Seq::new((d.size - from) as nat, |k: int| d.file_byte(disk, from + k))
    } else {
        Seq::empty()
    }
}

impl OSInode {
    /// Where the next read or write starts.
    pub closed spec fn pos(&self) -> int {
        self.offset as int
    }

    /// The inode opened.
    pub closed spec fn inode_spec(&self) -> Inode {
        self.inode
    }

    /// Whether it was opened for reading.
    pub closed spec fn readable_spec(&self) -> bool {
        self.readable
    }

    /// Whether it was opened for writing.
    pub closed spec fn writable_spec(&self) -> bool {
        self.writable
    }

    /// Open `inode`, for reading and writing as told, at its start
    pub fn new(readable: bool, writable: bool, inode: Inode) -> (f: Self)
        ensures
            f.readable_spec() == readable,
            f.writable_spec() == writable,
            f.pos() == 0,
            f.inode_spec() == inode,
    {
        OSInode { readable, writable, offset: 0, inode }
    }

    /// Read everything from the current position to the end of the file,
    /// 512 bytes at a time; the position moves to the end
    pub fn read_all(&mut self, fs: &mut EasyFileSystem) -> (v: Vec<u8>)
        requires
            old(fs).block_device.wf(),
            old(self).inode_spec().valid(old(fs).block_device.view()),
            old(self).inode_spec().disk_inode(old(fs).block_device.view()).readable(old(fs).block_device.view()),
            old(self).pos() + 512 <= usize::MAX,
        ensures
            final(fs).block_device.wf(),
            final(fs).block_device.view() == old(fs).block_device.view(),
            final(fs).inode_area_start_block == old(fs).inode_area_start_block,
            v@ == bytes_from(old(self).inode_spec(), old(fs).block_device.view(), old(self).pos()),
            final(self).pos() == old(self).pos() + v@.len(),
            final(self).inode_spec() == old(self).inode_spec(),
            final(self).readable_spec() == old(self).readable_spec(),
            final(self).writable_spec() == old(self).writable_spec(),
    {
        let ghost disk = fs.block_device.view();
        let ghost d = self.inode.disk_inode(disk);
        let ghost o0 = self.offset as int;
        let mut v: Vec<u8> = Vec::new();
        loop
            invariant
                fs.block_device.wf(),
                fs.block_device.view() == disk,
                disk == old(fs).block_device.view(),
                fs.inode_area_start_block == old(fs).inode_area_start_block,
                d == self.inode.disk_inode(disk),
                self.inode.valid(disk),
                d.readable(disk),
                self.inode == old(self).inode_spec(),
                self.readable == old(self).readable_spec(),
                self.writable == old(self).writable_spec(),
                o0 == old(self).pos(),
                o0 <= self.offset,
                self.offset <= d.size || self.offset == o0,
                o0 + 512 <= usize::MAX,
                v@ == Seq::new((self.offset - o0) as nat, |k: int| d.file_byte(disk, o0 + k)),
            ensures
                v@ == bytes_from(old(self).inode_spec(), old(fs).block_device.view(), o0),
                self.offset == o0 + v@.len(),
                fs.block_device.wf(),
                fs.block_device.view() == disk,
                fs.inode_area_start_block == old(fs).inode_area_start_block,
                self.inode == old(self).inode_spec(),
                self.readable == old(self).readable_spec(),
                self.writable == old(self).writable_spec(),
            decreases (if self.offset < d.size { d.size - self.offset } else { 0 }),
        {
            let mut buffer: Vec<u8> = vec![0u8; 512];
            let len = self.inode.read_at(self.offset, buffer.as_mut_slice(), fs);
            if len == 0 {
                proof {
                    if o0 < d.size {
                        assert(self.offset == d.size);
                    }
                    assert(v@ =~= bytes_from(old(self).inode_spec(), old(fs).block_device.view(), o0));
                }
                break;
            }
            let ghost v0 = v@;
            let mut i: usize = 0;
            while i < len
                invariant
                    i <= len,
                    len <= buffer@.len(),
                    v@ == v0 + buffer@.subrange(0, i as int),
                decreases len - i,
            {
                v.push(buffer[i]);
                i = i + 1;
                assert(v@ =~= v0 + buffer@.subrange(0, i as int));
            }
            proof {
                assert(v@ =~= Seq::new((self.offset + len - o0) as nat, |k: int| d.file_byte(disk, o0 + k))) by {
                    assert forall|k: int| 0 <= k < self.offset + len - o0 implies v@[k] == d.file_byte(disk, o0 + k) by {
                        if k >= self.offset - o0 {
                            assert(v@[k] == buffer@[k - (self.offset - o0)]);
                        }
                    }
                }
            }
            self.offset = self.offset + len;
        }
        v
    }

    /// Read from the current position into the `len` bytes of user memory
    /// at virtual address `va` (mapped by `page_table`, each byte in a place
    /// of its own): as many bytes as are left in the file, up to `len`, are
    /// copied there in order and the position moves past them; the number
    /// copied is returned
    pub fn read(
        &mut self,
        fs: &mut EasyFileSystem,
        page_table: &PageTable,
        mem: &mut PhysMem,
        va: usize,
        len: usize,
    ) -> (n: usize)
        requires
            old(fs).block_device.wf(),
            old(self).inode_spec().valid(old(fs).block_device.view()),
            old(self).inode_spec().disk_inode(old(fs).block_device.view()).readable(old(fs).block_device.view()),
            old(self).pos() + len <= usize::MAX,
            old(mem).wf(),
            forall|i: int| 0 <= i < len ==> #[trigger] readable(*page_table, *old(mem), va + i),
            injective_on(*page_table, va as int, va + len),
        ensures
            ({
                let disk = old(fs).block_device.view();
                let d = old(self).inode_spec().disk_inode(disk);
                let o = old(self).pos();
                &&& n == (if o < d.size && len > 0 { min_int(o + len, d.size as int) - o } else { 0 })
                &&& forall|k: int| 0 <= k < n ==> #[trigger] byte_at(*page_table, *final(mem), va + k)
                    == d.file_byte(disk, o + k)
                &&& forall|x: int| readable(*page_table, *old(mem), x) && !shares_place(*page_table, va as int, n as int, x)
                    ==> #[trigger] byte_at(*page_table, *final(mem), x) == byte_at(*page_table, *old(mem), x)
            }),
            final(self).pos() == old(self).pos() + n,
            final(self).inode_spec() == old(self).inode_spec(),
            final(self).readable_spec() == old(self).readable_spec(),
            final(self).writable_spec() == old(self).writable_spec(),
            final(fs).block_device.wf(),
            final(fs).block_device.view() == old(fs).block_device.view(),
            final(mem).wf(),
            final(mem).npages() == old(mem).npages(),
    {
        let mut buffer: Vec<u8> = vec![0u8; len];
        let n = self.inode.read_at(self.offset, buffer.as_mut_slice(), fs);
        let bytes = slice_range(buffer.as_slice(), 0, n);
        proof {
            assert forall|i: int| 0 <= i < bytes@.len() implies #[trigger] readable(*page_table, *old(mem), va + i) by {}
            assert forall|x: int, y: int|
                #![trigger phys_of(*page_table, x), phys_of(*page_table, y)]
                va <= x < va + bytes@.len() && va <= y < va + bytes@.len() && x != y
                implies phys_of(*page_table, x) != phys_of(*page_table, y) by {}
        }
        write_user_bytes(page_table, mem, va, bytes.as_slice());
        self.offset = self.offset + n;
        n
    }

    /// Write the `len` bytes of user memory at virtual address `va` (mapped
    /// by `page_table`) into the file at the current position (see
    /// [`Inode::write_at`]): all of them are written, a following read
    /// there gives them back, and the position moves past them; the number
    /// written is returned
    pub fn write(
        &mut self,
        fs: &mut EasyFileSystem,
        page_table: &PageTable,
        mem: &PhysMem,
        va: usize,
        len: usize,
    ) -> (n: usize)
        requires
            file_ok(*old(fs), old(self).inode_spec()),
            old(self).inode_spec().disk_inode(old(fs).block_device.view()).kind == DiskInodeKind::File,
            old(self).pos() + len <= u32::MAX,
            mem.wf(),
            forall|i: int| 0 <= i < len ==> #[trigger] readable(*page_table, *mem, va + i),
            ({
                let d = old(self).inode_spec().disk_inode(old(fs).block_device.view());
                let size = size_after_write(d.size as int, old(self).pos(), len as int);
                &&& data_blocks(size) <= INDIRECT1_BOUND + INDIRECT2_COUNT
                &&& free_data(*old(fs)).len() >= total_blocks(size) - total_blocks(d.size as int)
            }),
        ensures
            n == len,
            file_ok(*final(fs), old(self).inode_spec()),
            final(self).pos() == old(self).pos() + n,
            final(self).inode_spec() == old(self).inode_spec(),
            final(self).readable_spec() == old(self).readable_spec(),
            final(self).writable_spec() == old(self).writable_spec(),
            ({
                let disk0 = old(fs).block_device.view();
                let disk = final(fs).block_device.view();
                let d0 = old(self).inode_spec().disk_inode(disk0);
                let d = old(self).inode_spec().disk_inode(disk);
                &&& d.size == size_after_write(d0.size as int, old(self).pos(), n as int)
                &&& forall|k: int| 0 <= k < n ==> #[trigger] d.file_byte(disk, old(self).pos() + k)
                    == byte_at(*page_table, *mem, va + k)
            }),
    {
        let bytes = read_user_bytes(page_table, mem, va, len);
        let n = self.inode.write_at(self.offset, bytes.as_slice(), fs);
        self.offset = self.offset + n;
        n
    }

    /// Where the next read or write starts
    pub fn offset(&self) -> (o: usize)
        ensures
            o == self.pos(),
    {
        self.offset
    }

    /// Move the position of the next read or write to `offset`
    pub fn set_offset(&mut self, offset: usize)
        ensures
            final(self).pos() == offset,
            final(self).inode_spec() == old(self).inode_spec(),
            final(self).readable_spec() == old(self).readable_spec(),
            final(self).writable_spec() == old(self).writable_spec(),
    {
        self.offset = offset;
    }

    /// The size of the file in bytes
    pub fn file_size(&self, fs: &mut EasyFileSystem) -> (s: u32)
        requires
            old(fs).block_device.wf(),
            self.inode_spec().valid(old(fs).block_device.view()),
        ensures
            final(fs).block_device.wf(),
            final(fs).block_device.view() == old(fs).block_device.view(),
            final(fs).inode_area_start_block == old(fs).inode_area_start_block,
            s == self.inode_spec().disk_inode(old(fs).block_device.view()).size,
    {
        self.inode.file_size(fs)
    }

    /// The inode number of the file
    pub fn inode_id(&self, fs: &EasyFileSystem) -> (id: u32)
        requires
            self.inode_spec().block() <= u32::MAX,
            fs.inode_area_start_block <= self.inode_spec().block(),
            (self.inode_spec().block() - fs.inode_area_start_block) * INODES_PER_BLOCK
                + self.inode_spec().offset() / DISK_INODE_SIZE as int <= u32::MAX,
        ensures
            id == (self.inode_spec().block() - fs.inode_area_start_block) * INODES_PER_BLOCK
                + self.inode_spec().offset() / DISK_INODE_SIZE as int,
    {
        self.inode.inode_id(fs)
    }

    /// The file type bits of its status: regular file, directory, or else
    /// link
    pub fn mode(&self, fs: &mut EasyFileSystem) -> (m: u32)
        requires
            old(fs).block_device.wf(),
            self.inode_spec().valid(old(fs).block_device.view()),
        ensures
            final(fs).block_device.wf(),
            final(fs).block_device.view() == old(fs).block_device.view(),
            final(fs).inode_area_start_block == old(fs).inode_area_start_block,
            m == (match self.inode_spec().disk_inode(old(fs).block_device.view()).kind {
                DiskInodeKind::File => STAT_MODE_REG,
                DiskInodeKind::Directory => STAT_MODE_DIR,
            }),
    {
        if self.inode.is_file(fs) {
            STAT_MODE_REG
        } else if self.inode.is_dir(fs) {
            STAT_MODE_DIR
        } else {
            STAT_MODE_LNK
        }
    }
}

impl File for OSInode {
    fn is_readable(&self) -> (b: bool)
        ensures
            b == self.readable_spec(),
    {
        self.readable
    }

    fn is_writable(&self) -> (b: bool)
        ensures
            b == self.writable_spec(),
    {
        self.writable
    }
}

impl Stat {
    /// The status of the open file `file`: no device, its inode number,
    /// type, position and size
    pub fn from_inode(file: &OSInode, fs: &mut EasyFileSystem) -> (st: Stat)
        requires
            old(fs).block_device.wf(),
            file.inode_spec().valid(old(fs).block_device.view()),
            file.inode_spec().block() <= u32::MAX,
            old(fs).inode_area_start_block <= file.inode_spec().block(),
            (file.inode_spec().block() - old(fs).inode_area_start_block) * INODES_PER_BLOCK
                + file.inode_spec().offset() / DISK_INODE_SIZE as int <= u32::MAX,
        ensures
            final(fs).block_device.wf(),
            final(fs).block_device.view() == old(fs).block_device.view(),
            final(fs).inode_area_start_block == old(fs).inode_area_start_block,
            ({
                let d = file.inode_spec().disk_inode(old(fs).block_device.view());
                st == (Stat {
                    dev: 0,
                    ino: ((file.inode_spec().block() - old(fs).inode_area_start_block) * INODES_PER_BLOCK
                        + file.inode_spec().offset() / DISK_INODE_SIZE as int) as u32,
                    mode: match d.kind {
                        DiskInodeKind::File => STAT_MODE_REG,
                        DiskInodeKind::Directory => STAT_MODE_DIR,
                    },
                    off: file.pos() as usize,
                    size: d.size,
                })
            }),
    {
        let ino = file.inode_id(fs);
        let mode = file.mode(fs);
        let off = file.offset();
        let size = file.file_size(fs);
        Stat { dev: 0, ino, mode, off, size }
    }
}

/// Find the inode at the absolute path `path`: starting from the root
/// directory, each component between slashes is looked up in turn, empty
/// ones skipped (see [`walk`]); `None` when one is not found, or when a
/// component follows one that names a regular file
pub fn find_inode(path: &str, fs: &mut EasyFileSystem) -> (r: Option<Inode>)
    requires
        old(fs).block_device.wf(),
        walk_ok(
            old(fs).block_device.view(),
            old(fs).inode_area_start_block as int,
            inode_of(old(fs).inode_area_start_block as int, 0),
            path.spec_bytes(),
        ),
    ensures
        final(fs).block_device.wf(),
        final(fs).block_device.view() == old(fs).block_device.view(),
        final(fs).inode_bitmap == old(fs).inode_bitmap,
        final(fs).data_bitmap == old(fs).data_bitmap,
        final(fs).inode_area_start_block == old(fs).inode_area_start_block,
        final(fs).data_area_start_block == old(fs).data_area_start_block,
        r == walk(
            old(fs).block_device.view(),
            old(fs).inode_area_start_block as int,
            inode_of(old(fs).inode_area_start_block as int, 0),
            path.spec_bytes(),
        ),
{
    let p = path.as_bytes();
    let ghost disk = fs.block_device.view();
    let ghost area = fs.inode_area_start_block as int;
    let ghost whole = p@;
    let ghost root = inode_of(area, 0);
    let mut node = fs.root_inode();
    proof {
        lemma_inode_of(area, 0);
        lemma_inode_eq(node, root);
        assert(whole.subrange(0, whole.len() as int) =~= whole);
    }
    let len = p.len();
    let mut start: usize = 0;
    loop
        invariant
            fs.block_device.wf(),
            fs.block_device.view() == disk,
            disk == old(fs).block_device.view(),
            fs.inode_bitmap == old(fs).inode_bitmap,
            fs.data_bitmap == old(fs).data_bitmap,
            fs.inode_area_start_block == old(fs).inode_area_start_block,
            fs.data_area_start_block == old(fs).data_area_start_block,
            area == old(fs).inode_area_start_block,
            root == inode_of(area, 0),
            whole == p@,
            whole == path.spec_bytes(),
            len == whole.len(),
            start <= len,
            walk(disk, area, root, whole) == walk(disk, area, node, whole.subrange(start as int, len as int)),
            walk_ok(disk, area, node, whole.subrange(start as int, len as int)),
        decreases len - start,
    {
        let mut end = start;
        while end < len && p[end] != 47u8
            invariant
                start <= end <= len,
                len == p@.len(),
                forall|k: int| start <= k < end ==> #[trigger] p@[k] != 47u8,
            decreases len - end,
        {
            end = end + 1;
        }
        let ghost rest = whole.subrange(start as int, len as int);
        let ghost n = end - start;
        proof {
            assert forall|k: int| 0 <= k < n implies #[trigger] rest[k] != 47u8 by {
                assert(rest[k] == whole[start + k]);
            }
            if end < len {
                assert(rest[n] == whole[end as int]);
            }
            lemma_comp_len(rest, n);
        }
        let ghost name = rest.subrange(0, n);
        if end > start {
            let nm = slice_range(p, start, end);
            proof {
                assert(nm@ =~= name);
                assert(step_ok(disk, area, node, name));
            }
            if !node.is_dir(fs) {
                return None;
            }
            match node.find_by_name(nm.as_slice(), fs) {
                Some(next) => {
                    node = next;
                },
                None => {
                    return None;
                },
            }
        } else {
            assert(name =~= Seq::<u8>::empty());
        }
        if end == len {
            return Some(node);
        }
        proof {
            assert(rest.subrange(n + 1, rest.len() as int) =~= whole.subrange(end + 1, len as int));
        }
        start = end + 1;
    }
}

/// Where the last slash of the path `p` lies; -1 when it holds none.
pub open spec fn last_slash(p: Seq<u8>) -> int
    decreases p.len(),
{
    if p.len() == 0 {
        -1
    } else if p.last() == 47u8 {
        p.len() - 1
    } else {
        last_slash(p.drop_last())
    }
}

/// The directory part of the path `p`: what comes before its last slash,
/// nothing when it holds none.
pub open spec fn parent_path(p: Seq<u8>) -> Seq<u8> {
    if last_slash(p) < 0 {
        Seq::empty()
    } else {
        p.subrange(0, last_slash(p))
    }
}

/// Open what lies at the absolute path `path` of `fs` (see [`find_inode`]),
/// readable and writable as `flags` tell (see [`OpenFlags::read_write`]);
/// the handle names it by its inode number. With `O_CREATE` a regular file
/// found is emptied first, without it anything found is emptied when
/// `O_TRUNC` is set (see [`Inode::clear`]). `None` when nothing lies at
/// `path`. With `O_CREATE`, a new file would be made when the directory
/// part of `path` (see [`parent_path`]) exists; the file system hands out
/// no inodes for that, so `requires` leaves that case out
pub fn open_file(path: &str, flags: OpenFlags, fs: &mut EasyFileSystem) -> (r: Option<FileHandle>)
    requires
        old(fs).block_device.wf(),
        ({
            let disk = old(fs).block_device.view();
            let area = old(fs).inode_area_start_block as int;
            let found = walk(disk, area, inode_of(area, 0), path.spec_bytes());
            let cleared = if flags.has(O_CREATE) {
                found->0.disk_inode(disk).kind == DiskInodeKind::File
            } else {
                flags.has(O_TRUNC)
            };
            &&& walk_ok(disk, area, inode_of(area, 0), path.spec_bytes())
            &&& found matches Some(n) ==> n.valid(disk)
            &&& (found is Some && cleared) ==> file_ok(*old(fs), found->0)
            &&& (flags.has(O_CREATE) && found is None)
                ==> walk(disk, area, inode_of(area, 0), parent_path(path.spec_bytes())) is None
        }),
    ensures
        final(fs).block_device.wf(),
        final(fs).inode_bitmap == old(fs).inode_bitmap,
        final(fs).data_bitmap == old(fs).data_bitmap,
        final(fs).inode_area_start_block == old(fs).inode_area_start_block,
        final(fs).data_area_start_block == old(fs).data_area_start_block,
        ({
            let disk = old(fs).block_device.view();
            let area = old(fs).inode_area_start_block as int;
            let found = walk(disk, area, inode_of(area, 0), path.spec_bytes());
            let cleared = if flags.has(O_CREATE) {
                found->0.disk_inode(disk).kind == DiskInodeKind::File
            } else {
                flags.has(O_TRUNC)
            };
            &&& found is None ==> r is None && final(fs).block_device.view() == disk
            &&& found matches Some(n) ==> {
                &&& r is Some
                &&& r->0.readable == (flags.has(O_RDONLY) || flags.has(O_RDWR))
                &&& r->0.writable == (flags.has(O_WRONLY) || flags.has(O_RDWR))
                &&& r->0.kind is Inode
                &&& inode_of(area, r->0.kind->Inode_0 as int) == n
                &&& cleared ==> {
                    &&& file_ok(*final(fs), n)
                    &&& n.disk_inode(final(fs).block_device.view()).size == 0
                    &&& n.disk_inode(final(fs).block_device.view()).kind == n.disk_inode(disk).kind
                }
                &&& !cleared ==> final(fs).block_device.view() == disk
            }
        }),
{
    let (readable, writable) = flags.read_write();
    let ghost disk = fs.block_device.view();
    let ghost area = fs.inode_area_start_block as int;
    proof {
        lemma_walk_numbered(disk, area, inode_of(area, 0), path.spec_bytes(), 0);
    }
    let node = match find_inode(path, fs) {
        Some(n) => n,
        None => return None,
    };
    let ghost k = choose|k: u32| #![trigger inode_of(area, k as int)]
        node == inode_of(area, k as int) && area + (k as int) / (INODES_PER_BLOCK as int) <= u32::MAX;
    proof {
        lemma_inode_of(area, k as int);
    }
    let id = node.inode_id(fs);
    assert(id == k);
    if flags.contains(O_CREATE) {
        if node.is_file(fs) {
            node.clear(fs);
        }
    } else if flags.contains(O_TRUNC) {
        node.clear(fs);
    }
    Some(FileHandle { kind: FileKind::Inode(id), readable, writable })
}

} // verus!
