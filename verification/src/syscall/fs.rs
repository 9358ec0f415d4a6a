//! File system calls.

use vstd::prelude::*;
use vstd::utf8::encode_utf8;
use crate::easy_fs::efs::EasyFileSystem;
use crate::easy_fs::layout::DiskInodeKind;
use crate::easy_fs::vfs::{inode_of, walk, walk_ok};
use crate::easy_fs::vfs::file_ok;
use crate::fs::inode::{find_inode, open_file, parent_path};
use crate::fs::{full_path, get_full_path, stat_bytes, FileHandle, FileKind, OpenFlags, Stat};
use crate::fs::{O_CREATE, O_RDONLY, O_RDWR, O_TRUNC, O_WRONLY};
use crate::mm::address::PhysMem;
use crate::mm::{byte_at, injective_on, phys_of, readable, shares_place, touches_page, write_user_bytes};
use crate::task::pcb::ProcessControlBlockInner;

verus! {

/// Flag of `unlink`: remove a directory
pub const AT_REMOVEDIR: u32 = 1;

/// Bytes of a directory entry
pub const DIRENT_SIZE: usize = 32;

/// Duplicate descriptor `fd` into the lowest free descriptor, returned; -1
/// when `fd` is not open
pub fn sys_dup(inner: &mut ProcessControlBlockInner, fd: usize) -> (r: isize)
    requires
        old(inner).fd_table@.len() < isize::MAX,
    ensures
        !(fd < old(inner).fd_table@.len() && old(inner).fd_table@[fd as int] is Some) ==> {
            &&& r == -1
            &&& final(inner).fd_table@ == old(inner).fd_table@
        },
        fd < old(inner).fd_table@.len() && old(inner).fd_table@[fd as int] is Some ==> {
            let t = old(inner).fd_table@;
            &&& 0 <= r <= t.len()
            &&& forall|j: int| 0 <= j < r ==> #[trigger] t[j] is Some
            &&& r < t.len() ==> t[r as int] is None && final(inner).fd_table@ == t.update(r as int, t[fd as int])
            &&& r == t.len() ==> final(inner).fd_table@ == t.push(t[fd as int])
        },
        final(inner).cwd@ == old(inner).cwd@,
        final(inner).tasks@ == old(inner).tasks@,
{
    if fd < inner.fd_table.len() {
        match inner.fd_table[fd] {
            Some(file) => {
                let new_fd = inner.alloc_fd();
                inner.fd_table.set(new_fd, Some(file));
                new_fd as isize
            },
            None => -1,
        }
    } else {
        -1
    }
}

/// Make descriptor `new_fd` refer to the file open at `old_fd`, growing the
/// table when needed and closing what `new_fd` held; -1, with the table
/// unchanged, when `old_fd` is not open
pub fn sys_dup2(inner: &mut ProcessControlBlockInner, old_fd: usize, new_fd: usize) -> (r: isize)
    requires
        new_fd < usize::MAX,
    ensures
        !(old_fd < old(inner).fd_table@.len() && old(inner).fd_table@[old_fd as int] is Some) ==> r == -1
            && final(inner).fd_table@ == old(inner).fd_table@,
        old_fd < old(inner).fd_table@.len() && old(inner).fd_table@[old_fd as int] is Some ==> {
            let t = old(inner).fd_table@;
            let grown = if new_fd < t.len() { t } else { t + Seq::new((new_fd + 1 - t.len()) as nat, |i: int| None::<FileHandle>) };
            &&& r == 0
            &&& final(inner).fd_table@ == grown.update(new_fd as int, t[old_fd as int])
        },
        final(inner).cwd@ == old(inner).cwd@,
        final(inner).tasks@ == old(inner).tasks@,
{
    if old_fd >= inner.fd_table.len() || inner.fd_table[old_fd].is_none() {
        return -1;
    }
    let ghost t = inner.fd_table@;
    if new_fd >= inner.fd_table.len() {
        while inner.fd_table.len() < new_fd + 1
            invariant
                new_fd < usize::MAX,
                new_fd >= t.len(),
                old_fd < t.len(),
                t == old(inner).fd_table@,
                inner.cwd@ == old(inner).cwd@,
                inner.tasks@ == old(inner).tasks@,
                t.len() <= inner.fd_table@.len() <= new_fd + 1,
                inner.fd_table@ == t + Seq::new((inner.fd_table@.len() - t.len()) as nat, |i: int| None::<FileHandle>),
            decreases new_fd + 1 - inner.fd_table@.len(),
        {
            let ghost before = inner.fd_table@;
            inner.fd_table.push(None);
            assert(inner.fd_table@ =~= t + Seq::new((inner.fd_table@.len() - t.len()) as nat, |i: int| None::<FileHandle>));
        }
    }
    let f = inner.fd_table[old_fd];
    inner.fd_table.set(new_fd, f);
    0
}

/// Close descriptor `fd`: 0, or -1 when it is not open
pub fn sys_close(inner: &mut ProcessControlBlockInner, fd: usize) -> (r: isize)
    ensures
        fd < old(inner).fd_table@.len() && old(inner).fd_table@[fd as int] is Some ==> {
            &&& r == 0
            &&& final(inner).fd_table@ == old(inner).fd_table@.update(fd as int, None)
        },
        !(fd < old(inner).fd_table@.len() && old(inner).fd_table@[fd as int] is Some) ==> {
            &&& r == -1
            &&& final(inner).fd_table@ == old(inner).fd_table@
        },
        final(inner).cwd@ == old(inner).cwd@,
        final(inner).tasks@ == old(inner).tasks@,
{
    if fd >= inner.fd_table.len() {
        return -1;
    }
    match inner.fd_table[fd] {
        Some(_) => {
            inner.fd_table.set(fd, None);
            0
        },
        None => -1,
    }
}

/// The file to read from through descriptor `fd`; none, and the call
/// returns -1, when `fd` is not open or not readable
pub fn sys_read(inner: &ProcessControlBlockInner, fd: usize) -> (f: Option<FileHandle>)
    ensures
        f == (if fd < inner.fd_table@.len() && inner.fd_table@[fd as int] is Some
            && inner.fd_table@[fd as int]->0.readable {
            inner.fd_table@[fd as int]
        } else {
            None::<FileHandle>
        }),
{
    if fd >= inner.fd_table.len() {
        return None;
    }
    match inner.fd_table[fd] {
        Some(file) => if file.readable { Some(file) } else { None },
        None => None,
    }
}

/// The file to write to through descriptor `fd`; none, and the call
/// returns -1, when `fd` is not open or not writable
pub fn sys_write(inner: &ProcessControlBlockInner, fd: usize) -> (f: Option<FileHandle>)
    ensures
        f == (if fd < inner.fd_table@.len() && inner.fd_table@[fd as int] is Some
            && inner.fd_table@[fd as int]->0.writable {
            inner.fd_table@[fd as int]
        } else {
            None::<FileHandle>
        }),
{
    if fd >= inner.fd_table.len() {
        return None;
    }
    match inner.fd_table[fd] {
        Some(file) => if file.writable { Some(file) } else { None },
        None => None,
    }
}

/// Give the file that was opened, if any, the lowest free descriptor, which
/// is returned; -1 when nothing could be opened (see [`open_path`], which
/// opens the file)
pub fn sys_open(inner: &mut ProcessControlBlockInner, opened: Option<FileHandle>) -> (r: isize)
    requires
        old(inner).fd_table@.len() < isize::MAX,
    ensures
        opened is None ==> r == -1 && final(inner).fd_table@ == old(inner).fd_table@,
        opened is Some ==> {
            let t = old(inner).fd_table@;
            &&& 0 <= r <= t.len()
            &&& forall|j: int| 0 <= j < r ==> #[trigger] t[j] is Some
            &&& r < t.len() ==> t[r as int] is None && final(inner).fd_table@ == t.update(r as int, opened)
            &&& r == t.len() ==> final(inner).fd_table@ == t.push(opened)
        },
        final(inner).cwd@ == old(inner).cwd@,
        final(inner).tasks@ == old(inner).tasks@,
{
    match opened {
        Some(file) => {
            let fd = inner.alloc_fd();
            inner.fd_table.set(fd, Some(file));
            fd as isize
        },
        None => -1,
    }
}

/// Open `path`, seen from the working directory, with the flags `flags`: its
/// full path (see [`get_full_path`]) is opened in `fs` (see [`open_file`])
/// and the handle gets the lowest free descriptor (see [`sys_open`]), which
/// is returned. -1, with nothing opened, when `flags` holds a bit that is no
/// flag or nothing lies at that path
pub fn open_path(inner: &mut ProcessControlBlockInner, fs: &mut EasyFileSystem, path: &str, flags: u32) -> (r: isize)
    requires
        old(inner).fd_table@.len() < isize::MAX,
        old(fs).block_device.wf(),
        ({
            let disk = old(fs).block_device.view();
            let area = old(fs).inode_area_start_block as int;
            let p = encode_utf8(full_path(old(inner).cwd@, path@));
            let f = OpenFlags { bits: flags };
            let found = walk(disk, area, inode_of(area, 0), p);
            let cleared = if f.has(O_CREATE) {
                found->0.disk_inode(disk).kind == DiskInodeKind::File
            } else {
                f.has(O_TRUNC)
            };
            &&& walk_ok(disk, area, inode_of(area, 0), p)
            &&& found matches Some(n) ==> n.valid(disk)
            &&& (found is Some && cleared) ==> file_ok(*old(fs), found->0)
            &&& (f.has(O_CREATE) && found is None) ==> walk(disk, area, inode_of(area, 0), parent_path(p)) is None
        }),
    ensures
        final(fs).block_device.wf(),
        final(inner).cwd@ == old(inner).cwd@,
        final(inner).tasks@ == old(inner).tasks@,
        ({
            let disk = old(fs).block_device.view();
            let area = old(fs).inode_area_start_block as int;
            let p = encode_utf8(full_path(old(inner).cwd@, path@));
            let f = OpenFlags { bits: flags };
            let found = walk(disk, area, inode_of(area, 0), p);
            let known = flags & !(O_WRONLY | O_RDWR | O_CREATE | O_TRUNC) == 0;
            let t = old(inner).fd_table@;
            &&& (!known || found is None) ==> {
                &&& r == -1
                &&& final(inner).fd_table@ == t
                &&& final(fs).block_device.view() == disk
            }
            &&& (known && found is Some) ==> {
                let h = final(inner).fd_table@[r as int]->0;
                &&& 0 <= r <= t.len()
                &&& forall|j: int| 0 <= j < r ==> #[trigger] t[j] is Some
                &&& r < t.len() ==> t[r as int] is None && final(inner).fd_table@ == t.update(r as int, Some(h))
                &&& r == t.len() ==> final(inner).fd_table@ == t.push(Some(h))
                &&& h.kind is Inode
                &&& inode_of(area, h.kind->Inode_0 as int) == found->0
                &&& h.readable == (f.has(O_RDONLY) || f.has(O_RDWR))
                &&& h.writable == (f.has(O_WRONLY) || f.has(O_RDWR))
            }
        }),
{
    let full = get_full_path(inner.cwd.as_str(), path);
    let f = match OpenFlags::from_bits(flags) {
        Some(f) => f,
        None => return -1,
    };
    let opened = open_file(full.as_str(), f, fs);
    sys_open(inner, opened)
}

/// Move to directory `path`, an absolute path; `found` says whether `path`
/// was found and, if so, whether it is a directory. 0, or -1 when it does
/// not exist, or -2 when it is not a directory
pub fn sys_chdir(inner: &mut ProcessControlBlockInner, path: String, found: Option<bool>) -> (r: isize)
    ensures
        found == Some(true) ==> r == 0 && final(inner).cwd@ == path@,
        found == Some(false) ==> r == -2 && final(inner).cwd@ == old(inner).cwd@,
        found == None::<bool> ==> r == -1 && final(inner).cwd@ == old(inner).cwd@,
        final(inner).fd_table@ == old(inner).fd_table@,
        final(inner).tasks@ == old(inner).tasks@,
{
    match found {
        Some(is_dir) => {
            if is_dir {
                inner.cwd = path;
                0
            } else {
                -2
            }
        },
        None => -1,
    }
}

/// Move to directory `path`, seen from the working directory: its full
/// path (see [`get_full_path`]) is looked up from the root directory of `fs`
/// (see [`find_inode`]). 0, and the working directory becomes that full
/// path, when it leads to a directory; -1 when it leads nowhere, -2 when
/// it leads to a file; the working directory is kept then
pub fn chdir(inner: &mut ProcessControlBlockInner, fs: &mut EasyFileSystem, path: &str) -> (r: isize)
    requires
        old(fs).block_device.wf(),
        ({
            let disk = old(fs).block_device.view();
            let area = old(fs).inode_area_start_block as int;
            let p = encode_utf8(full_path(old(inner).cwd@, path@));
            &&& walk_ok(disk, area, inode_of(area, 0), p)
            &&& walk(disk, area, inode_of(area, 0), p) matches Some(n) ==> n.valid(disk)
        }),
    ensures
        ({
            let disk = old(fs).block_device.view();
            let area = old(fs).inode_area_start_block as int;
            let full = full_path(old(inner).cwd@, path@);
            let found = walk(disk, area, inode_of(area, 0), encode_utf8(full));
            &&& found is None ==> r == -1 && final(inner).cwd@ == old(inner).cwd@
            &&& (found matches Some(n) && n.disk_inode(disk).kind == DiskInodeKind::Directory) ==> (r == 0
                && final(inner).cwd@ == full)
            &&& (found matches Some(n) && n.disk_inode(disk).kind != DiskInodeKind::Directory) ==> (r == -2
                && final(inner).cwd@ == old(inner).cwd@)
        }),
        final(fs).block_device.wf(),
        final(fs).block_device.view() == old(fs).block_device.view(),
        final(inner).fd_table@ == old(inner).fd_table@,
        final(inner).tasks@ == old(inner).tasks@,
{
    let full = get_full_path(inner.cwd.as_str(), path);
    let node = find_inode(full.as_str(), fs);
    let found = match node {
        Some(n) => Some(n.is_dir(fs)),
        None => None,
    };
    sys_chdir(inner, full, found)
}

/// The result of `mkdir` from what the file system did: whether the parent
/// directory was found, and then whether the directory could be created.
/// 0, -1 when the parent is missing, -2 when creation failed
pub fn sys_mkdir(parent_found: bool, created: bool) -> (r: isize)
    ensures
        r == (if !parent_found { -1isize } else if created { 0isize } else { -2isize }),
{
    if parent_found {
        if created {
            0
        } else {
            -2
        }
    } else {
        -1
    }
}

/// Whether `unlink` removes its target: the target, if found in its parent
/// directory, is described by whether it is a directory and its size.
/// Returns the call's result and whether to clear and delete the target: a
/// file goes without `AT_REMOVEDIR`, an empty directory (holding only its two
/// entries) with it. -1 when the target is missing, -2 when its type does
/// not match the flag, -3 when the directory is not empty
pub fn sys_unlink(flags: u32, target: Option<(bool, u32)>) -> (r: (isize, bool))
    ensures
        ({
            let remove_dir = flags & AT_REMOVEDIR == AT_REMOVEDIR;
            r == match target {
                None => (-1isize, false),
                Some((is_dir, size)) => if !remove_dir && !is_dir {
                    (0isize, true)
                } else if remove_dir && is_dir {
                    if size == DIRENT_SIZE * 2 { (0isize, true) } else { (-3isize, false) }
                } else {
                    (-2isize, false)
                },
            }
        }),
{
    match target {
        None => (-1, false),
        Some((is_dir, size)) => {
            let remove_dir = flags & AT_REMOVEDIR == AT_REMOVEDIR;
            if !remove_dir && !is_dir {
                return (0, true);
            }
            if remove_dir && is_dir {
                if size as usize == DIRENT_SIZE * 2 {
                    return (0, true);
                } else {
                    return (-3, false);
                }
            }
            (-2, false)
        },
    }
}

/// Copy the working directory of the process, as bytes, into the `len`
/// bytes of user memory at `buf`: its length, or -1, with nothing written,
/// when it does not fit
pub fn sys_getcwd(inner: &ProcessControlBlockInner, mem: &mut PhysMem, buf: usize, len: usize) -> (r: isize)
    requires
        old(mem).wf(),
        forall|i: int| 0 <= i < len ==> #[trigger] readable(inner.memory_set.pt(), *old(mem), buf + i),
        injective_on(inner.memory_set.pt(), buf as int, buf + len),
        vstd::utf8::encode_utf8(inner.cwd@).len() <= isize::MAX,
    ensures
        final(mem).wf(),
        final(mem).npages() == old(mem).npages(),
        ({
            let pt = inner.memory_set.pt();
            let cwd = vstd::utf8::encode_utf8(inner.cwd@);
            if cwd.len() > len {
                r == -1 && *final(mem) == *old(mem)
            } else {
                &&& r == cwd.len()
                &&& forall|i: int| 0 <= i < cwd.len() ==> #[trigger] byte_at(pt, *final(mem), buf + i) == cwd[i]
                &&& forall|x: int| readable(pt, *old(mem), x) && !shares_place(pt, buf as int, cwd.len() as int, x)
                    ==> #[trigger] byte_at(pt, *final(mem), x) == byte_at(pt, *old(mem), x)
                &&& forall|p: int| final(mem).has(p) && !touches_page(pt, buf as int, buf + cwd.len(), p)
                    ==> #[trigger] final(mem).page(p) == old(mem).page(p)
            }
        }),
{
    let cwd = inner.cwd.as_str().as_bytes();
    if cwd.len() > len {
        return -1;
    }
    proof {
        if cwd@.len() > 0 {
            assert(readable(inner.memory_set.pt(), *old(mem), buf + 0));
        }
        assert forall|x: int, y: int|
            #![trigger phys_of(inner.memory_set.pt(), x), phys_of(inner.memory_set.pt(), y)]
            buf <= x < buf + cwd@.len() && buf <= y < buf + cwd@.len() && x != y
            implies phys_of(inner.memory_set.pt(), x) != phys_of(inner.memory_set.pt(), y) by {
        }
    }
    write_user_bytes(inner.memory_set.page_table(), mem, buf, cwd);
    cwd.len() as isize
}

/// Write `stat`, the status of the file open at descriptor `fd`, into user
/// memory at `stat_ptr` (see [`stat_bytes`]): 0, or -1, with nothing
/// written, when `fd` is not open
pub fn sys_fstat(inner: &ProcessControlBlockInner, mem: &mut PhysMem, fd: usize, stat_ptr: usize, stat: Stat) -> (r: isize)
    requires
        old(mem).wf(),
        forall|i: int| 0 <= i < 32 ==> #[trigger] readable(inner.memory_set.pt(), *old(mem), stat_ptr + i),
        injective_on(inner.memory_set.pt(), stat_ptr as int, stat_ptr + 32),
    ensures
        final(mem).wf(),
        final(mem).npages() == old(mem).npages(),
        ({
            let pt = inner.memory_set.pt();
            if fd >= inner.fd_table@.len() || inner.fd_table@[fd as int] is None {
                r == -1 && *final(mem) == *old(mem)
            } else {
                &&& r == 0
                &&& forall|i: int| 0 <= i < 32 ==> #[trigger] byte_at(pt, *final(mem), stat_ptr + i) == stat_bytes(stat)[i]
                &&& forall|x: int| readable(pt, *old(mem), x) && !shares_place(pt, stat_ptr as int, 32, x)
                    ==> #[trigger] byte_at(pt, *final(mem), x) == byte_at(pt, *old(mem), x)
                &&& forall|p: int| final(mem).has(p) && !touches_page(pt, stat_ptr as int, stat_ptr + 32, p)
                    ==> #[trigger] final(mem).page(p) == old(mem).page(p)
            }
        }),
{
    if fd >= inner.fd_table.len() || inner.fd_table[fd].is_none() {
        return -1;
    }
    let bytes = stat.to_bytes();
    write_user_bytes(inner.memory_set.page_table(), mem, stat_ptr, bytes.as_slice());
    0
}

/// The lowest free descriptor of the table `t`: its first empty slot, or
/// one past its end when every slot is taken.
pub open spec fn first_free(t: Seq<Option<FileHandle>>) -> int
    decreases t.len(),
{
    if t.len() == 0 {
        0
    } else if t[0] is None {
        0
    } else {
        1 + first_free(t.drop_first())
    }
}

/// The table `t` with `f` open at descriptor `fd`, a free slot or one past
/// the end.
pub open spec fn put_fd(t: Seq<Option<FileHandle>>, fd: int, f: FileHandle) -> Seq<Option<FileHandle>> {
    if fd < t.len() { t.update(fd, Some(f)) } else { t.push(Some(f)) }
}

/// The lowest free descriptor is the first empty slot.
proof fn lemma_first_free(t: Seq<Option<FileHandle>>, fd: int)
    requires
        0 <= fd <= t.len(),
        forall|j: int| 0 <= j < fd ==> #[trigger] t[j] is Some,
        fd == t.len() || t[fd] is None,
    ensures
        first_free(t) == fd,
    decreases fd,
{
    if fd > 0 {
        let rest = t.drop_first();
        assert forall|j: int| 0 <= j < fd - 1 implies #[trigger] rest[j] is Some by {
            assert(rest[j] == t[j + 1]);
        }
        if fd < t.len() {
            assert(rest[fd - 1] == t[fd]);
        }
        lemma_first_free(rest, fd - 1);
    }
}

/// Open both ends of `pipe`, a pipe just made: the read end at the lowest
/// free descriptor, then the write end at the next lowest (see
/// [`ProcessControlBlockInner::alloc_fd`]); the two descriptors are written
/// to user memory at `pipe_ptr`, an address aligned to 8 bytes, as two
/// 8-byte little-endian words. 0
pub fn sys_pipe(inner: &mut ProcessControlBlockInner, mem: &mut PhysMem, pipe: usize, pipe_ptr: usize) -> (r: isize)
    requires
        old(inner).fd_table@.len() + 2 <= usize::MAX,
        old(mem).wf(),
        pipe_ptr % 8 == 0,
        forall|i: int| 0 <= i < 16 ==> #[trigger] readable(old(inner).memory_set.pt(), *old(mem), pipe_ptr + i),
        injective_on(old(inner).memory_set.pt(), pipe_ptr as int, pipe_ptr + 16),
    ensures
        r == 0,
        final(mem).wf(),
        final(mem).npages() == old(mem).npages(),
        final(inner).memory_set == old(inner).memory_set,
        final(inner).tasks@ == old(inner).tasks@,
        final(inner).cwd@ == old(inner).cwd@,
        ({
            let t = old(inner).fd_table@;
            let rd = FileHandle { kind: FileKind::Pipe(pipe), readable: true, writable: false };
            let wr = FileHandle { kind: FileKind::Pipe(pipe), readable: false, writable: true };
            let pt = old(inner).memory_set.pt();
            let read_fd = first_free(t);
            let t1 = put_fd(t, read_fd, rd);
            let write_fd = first_free(t1);
            &&& final(inner).fd_table@ == put_fd(t1, write_fd, wr)
            &&& forall|i: int| 0 <= i < 8 ==> #[trigger] byte_at(pt, *final(mem), pipe_ptr + i)
                == vstd::bytes::spec_u64_to_le_bytes(read_fd as u64)[i]
            &&& forall|i: int| 8 <= i < 16 ==> #[trigger] byte_at(pt, *final(mem), pipe_ptr + i)
                == vstd::bytes::spec_u64_to_le_bytes(write_fd as u64)[i - 8]
        }),
        forall|x: int| readable(old(inner).memory_set.pt(), *old(mem), x) && !shares_place(old(inner).memory_set.pt(), pipe_ptr as int, 16, x)
            ==> #[trigger] byte_at(old(inner).memory_set.pt(), *final(mem), x) == byte_at(old(inner).memory_set.pt(), *old(mem), x),
        forall|p: int| final(mem).has(p) && !touches_page(old(inner).memory_set.pt(), pipe_ptr as int, pipe_ptr + 16, p)
            ==> #[trigger] final(mem).page(p) == old(mem).page(p),
{
    let ghost t = inner.fd_table@;
    let rd = FileHandle { kind: FileKind::Pipe(pipe), readable: true, writable: false };
    let wr = FileHandle { kind: FileKind::Pipe(pipe), readable: false, writable: true };
    let read_fd = inner.alloc_fd();
    proof {
        lemma_first_free(t, read_fd as int);
    }
    inner.fd_table.set(read_fd, Some(rd));
    let ghost t1 = inner.fd_table@;
    assert(t1 =~= put_fd(t, read_fd as int, rd));
    let write_fd = inner.alloc_fd();
    proof {
        lemma_first_free(t1, write_fd as int);
    }
    inner.fd_table.set(write_fd, Some(wr));
    assert(inner.fd_table@ =~= put_fd(t1, write_fd as int, wr));
    let mut bytes = vstd::bytes::u64_to_le_bytes(read_fd as u64);
    let mut second = vstd::bytes::u64_to_le_bytes(write_fd as u64);
    bytes.append(&mut second);
    proof {
        vstd::bytes::lemma_auto_spec_u64_to_from_le_bytes();
        assert(bytes@.len() == 16);
    }
    write_user_bytes(inner.memory_set.page_table(), mem, pipe_ptr, bytes.as_slice());
    proof {
        let first = vstd::bytes::spec_u64_to_le_bytes(read_fd as u64);
        let sec = vstd::bytes::spec_u64_to_le_bytes(write_fd as u64);
        assert(bytes@ == first + sec);
        assert forall|i: int| 8 <= i < 16 implies #[trigger] byte_at(inner.memory_set.pt(), *mem, pipe_ptr + i)
            == sec[i - 8] by {
            assert(bytes@[i] == sec[i - 8]);
        }
        assert forall|i: int| 0 <= i < 8 implies #[trigger] byte_at(inner.memory_set.pt(), *mem, pipe_ptr + i)
            == first[i] by {
            assert(bytes@[i] == first[i]);
        }
    }
    0
}

} // verus!
