//! The `ls` program: what it prints for a target.

use vstd::prelude::*;
use crate::easy_fs::layout::{entry_name, DirEntry, DIRENT_SIZE};
use crate::fs::{STAT_MODE_DIR, STAT_MODE_REG};
use crate::easy_fs::layout::slice_range;

verus! {

/// How many names `ls` prints for a directory whose content is `len`
/// bytes long: one per whole entry, but for the first two (`.` and `..`).
pub open spec fn listed_count(len: int) -> int {
    if len / DIRENT_SIZE as int > 2 { len / DIRENT_SIZE as int - 2 } else { 0 }
}

/// The `k`-th name that `ls` prints for a directory whose content is `buf`:
/// that of entry `k + 2`.
pub open spec fn listed_name(buf: Seq<u8>, k: int) -> Seq<u8> {
    entry_name(buf.subrange((k + 2) * DIRENT_SIZE as int, (k + 3) * DIRENT_SIZE as int))
}

/// The names listed for a directory whose content is `buf`, in order: the
/// names of its entries but the first two. Each must be valid `UTF-8`.
pub fn dir_listing(buf: &[u8]) -> (names: Vec<String>)
    requires
        forall|k: int| 0 <= k < listed_count(buf@.len() as int) ==> vstd::utf8::valid_utf8(#[trigger] listed_name(buf@, k)),
    ensures
        names@.len() == listed_count(buf@.len() as int),
        forall|k: int| 0 <= k < names@.len() ==> vstd::utf8::encode_utf8(#[trigger] names@[k]@) == listed_name(buf@, k),
{
    let len = buf.len();
    let n = len / DIRENT_SIZE;
    let mut names: Vec<String> = Vec::new();
    let mut i: usize = 2;
    while i < n
        invariant
            n == buf@.len() as int / DIRENT_SIZE as int,
            len == buf@.len(),
            2 <= i,
            i <= n || i == 2,
            names@.len() == i - 2,
            forall|k: int| 0 <= k < listed_count(buf@.len() as int) ==> vstd::utf8::valid_utf8(#[trigger] listed_name(buf@, k)),
            forall|k: int| 0 <= k < names@.len() ==> vstd::utf8::encode_utf8(#[trigger] names@[k]@) == listed_name(buf@, k),
        decreases n - i,
    {
        assert((i + 1) * 32 <= buf@.len()) by (nonlinear_arith)
            requires
                i < n,
                n == buf@.len() / 32,
        ;
        assert(buf@.len() == len);
        let start: usize = i * 32;
        let end: usize = start + 32;
        let bytes = slice_range(buf, start, end);
        let entry = DirEntry::from_bytes(bytes.as_slice());
        proof {
            let k = i - 2;
            assert(listed_count(buf@.len() as int) == n - 2);
            assert(vstd::utf8::valid_utf8(listed_name(buf@, k)));
            assert(bytes@.subrange(0, 28) =~= entry.name@);
        }
        let name = entry.name();
        let owned = name.to_owned();
        names.push(owned);
        proof {
            assert(names@[i - 2] == owned);
        }
        i = i + 1;
    }
    assert(listed_count(buf@.len() as int) == (if n > 2 { n - 2 } else { 0 }));
    names
}

/// What `ls` does with a target once it has opened it and asked for its
/// status
#[derive(Clone, Copy, Debug, PartialEq, Eq, Structural)]
pub enum ListStep {
    /// The target could not be opened: it says so
    NoSuchFile,
    /// The status of the open file could not be had: it says so
    BadDescriptor,
    /// The target is a regular file: it prints its name
    PrintTarget,
    /// The target is a directory: it reads this many bytes of it and
    /// prints the names listed there (see [`dir_listing`])
    ReadDirectory(u64),
}

/// What `ls` does with a target, from the descriptor that opening it gave
/// (`-1` when it could not be), then what asking for its status returned
/// (0 or -1) and the mode and size it gave
pub fn list_step(fd: isize, fstat_result: isize, mode: u32, size: u64) -> (s: ListStep)
    requires
        fd != -1 ==> fstat_result == 0 || fstat_result == -1,
        fd != -1 && fstat_result == 0 ==> mode == STAT_MODE_REG || mode == STAT_MODE_DIR,
    ensures
        s == (if fd == -1 {
            ListStep::NoSuchFile
        } else if fstat_result == -1 {
            ListStep::BadDescriptor
        } else if mode == STAT_MODE_REG {
            ListStep::PrintTarget
        } else {
            ListStep::ReadDirectory(size)
        }),
{
    if fd == -1 {
        ListStep::NoSuchFile
    } else if fstat_result == -1 {
        ListStep::BadDescriptor
    } else if mode == STAT_MODE_REG {
        ListStep::PrintTarget
    } else {
        ListStep::ReadDirectory(size)
    }
}

} // verus!
