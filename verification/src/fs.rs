//! Files as the kernel sees them: the standard streams, open file handles,
//! open flags, file status and path resolution.

pub mod inode;

use vstd::prelude::*;
use crate::mm::address::{PhysMem, PAGE_SIZE};
use crate::mm::{flat, seg_bytes, seg_fits, total_len, UserBuffer};

verus! {

/// A file a process can have open
pub trait File {
    /// Whether it can be read
    fn is_readable(&self) -> bool;

    /// Whether it can be written
    fn is_writable(&self) -> bool;
}

/// Standard input
#[derive(Clone, Copy, Debug)]
pub struct Stdin;

/// Standard output
#[derive(Clone, Copy, Debug)]
pub struct Stdout;

impl File for Stdin {
    fn is_readable(&self) -> (b: bool)
        ensures
            b,
    {
        true
    }

    fn is_writable(&self) -> (b: bool)
        ensures
            !b,
    {
        false
    }
}

impl File for Stdout {
    fn is_readable(&self) -> (b: bool)
        ensures
            !b,
    {
        false
    }

    fn is_writable(&self) -> (b: bool)
        ensures
            b,
    {
        true
    }
}

/// The bytes of physical memory `mem` at the places `places`, in order.
pub open spec fn bytes_at(mem: PhysMem, places: Seq<(usize, usize)>) -> Seq<u8> {
    places.map_values(|pl: (usize, usize)| mem.page(pl.0 as int)[pl.1 as int])
}

impl Stdin {
    /// Store `ch`, the byte the console gave, in `user_buf`, a buffer of
    /// exactly one byte; the number of bytes read: 1
    pub fn read(&self, user_buf: &UserBuffer, mem: &mut PhysMem, ch: u8) -> (n: usize)
        requires
            old(mem).wf(),
            total_len(user_buf.buffers@) == 1,
            user_buf.buffers@.len() > 0,
            user_buf.buffers@[0].start < user_buf.buffers@[0].end <= PAGE_SIZE,
            old(mem).has(user_buf.buffers@[0].ppn as int),
        ensures
            n == 1,
            final(mem).wf(),
            final(mem).npages() == old(mem).npages(),
            ({
                let seg = user_buf.buffers@[0];
                &&& final(mem).page(seg.ppn as int) == old(mem).page(seg.ppn as int).update(seg.start as int, ch)
                &&& forall|p: int| p != seg.ppn && final(mem).has(p) ==> #[trigger] final(mem).page(p) == old(mem).page(p)
            }),
    {
        let seg = user_buf.buffers[0];
        mem.write_byte(seg.ppn, seg.start, ch);
        1
    }
}

impl Stdout {
    /// What writing `user_buf` to the console prints: the bytes of the
    /// buffer, in order; their number is the number of bytes written
    pub fn write(&self, user_buf: &UserBuffer, mem: &PhysMem) -> (bytes: Vec<u8>)
        requires
            mem.wf(),
            forall|k: int| 0 <= k < user_buf.buffers@.len() ==> seg_fits(#[trigger] user_buf.buffers@[k]),
            forall|k: int| 0 <= k < user_buf.buffers@.len() ==> mem.has(#[trigger] user_buf.buffers@[k].ppn as int),
        ensures
            bytes@ == bytes_at(*mem, flat(user_buf.buffers@)),
    {
        let segs = &user_buf.buffers;
        let mut bytes: Vec<u8> = Vec::new();
        let mut k: usize = 0;
        while k < segs.len()
            invariant
                k <= segs@.len(),
                mem.wf(),
                forall|q: int| 0 <= q < segs@.len() ==> seg_fits(#[trigger] segs@[q]),
                forall|q: int| 0 <= q < segs@.len() ==> mem.has(#[trigger] segs@[q].ppn as int),
                bytes@ == bytes_at(*mem, flat(segs@.take(k as int))),
            decreases segs@.len() - k,
        {
            let seg = segs[k];
            let ghost before = bytes@;
            let mut j = seg.start;
            while j < seg.end
                invariant
                    seg.start <= j <= seg.end,
                    seg_fits(seg),
                    mem.wf(),
                    mem.has(seg.ppn as int),
                    bytes@ == before + bytes_at(*mem, seg_bytes(seg).take(j - seg.start)),
                decreases seg.end - j,
            {
                let b = mem.read_byte(seg.ppn, j);
                bytes.push(b);
                j = j + 1;
                assert(seg_bytes(seg).take(j - seg.start) =~= seg_bytes(seg).take(j - 1 - seg.start).push(
                    (seg.ppn, (j - 1) as usize)));
                assert(bytes@ =~= before + bytes_at(*mem, seg_bytes(seg).take(j - seg.start)));
            }
            proof {
                assert(seg_bytes(seg).take(seg.end - seg.start) =~= seg_bytes(seg));
                assert(segs@.take(k + 1).drop_last() =~= segs@.take(k as int));
                assert(flat(segs@.take(k + 1)) == flat(segs@.take(k as int)) + seg_bytes(seg));
                assert(bytes_at(*mem, flat(segs@.take(k + 1))) =~= bytes_at(*mem, flat(segs@.take(k as int)))
                    + bytes_at(*mem, seg_bytes(seg)));
            }
            k = k + 1;
        }
        assert(segs@.take(k as int) =~= segs@);
        bytes
    }
}

/// What an open file refers to
#[derive(Clone, Copy, Debug, PartialEq, Eq, Structural)]
pub enum FileKind {
    Stdin,
    Stdout,
    /// An inode of the file system, by number
    Inode(u32),
    /// An end of a pipe, by pipe number
    Pipe(usize),
}

/// An open file: what it refers to and how it may be used
#[derive(Clone, Copy, Debug, PartialEq, Eq, Structural)]
pub struct FileHandle {
    pub kind: FileKind,
    pub readable: bool,
    pub writable: bool,
}

impl File for FileHandle {
    fn is_readable(&self) -> (b: bool)
        ensures
            b == self.readable,
    {
        self.readable
    }

    fn is_writable(&self) -> (b: bool)
        ensures
            b == self.writable,
    {
        self.writable
    }
}

impl FileHandle {
    /// Standard input: readable only.
    pub open spec fn stdin_spec() -> Self {
        FileHandle { kind: FileKind::Stdin, readable: true, writable: false }
    }

    /// Standard output: writable only.
    pub open spec fn stdout_spec() -> Self {
        FileHandle { kind: FileKind::Stdout, readable: false, writable: true }
    }

    /// Standard input: readable only
    pub fn stdin() -> (f: Self)
        ensures
            f == Self::stdin_spec(),
            f == (FileHandle { kind: FileKind::Stdin, readable: true, writable: false }),
    {
        FileHandle { kind: FileKind::Stdin, readable: true, writable: false }
    }

    /// Standard output: writable only
    pub fn stdout() -> (f: Self)
        ensures
            f == Self::stdout_spec(),
            f == (FileHandle { kind: FileKind::Stdout, readable: false, writable: true }),
    {
        FileHandle { kind: FileKind::Stdout, readable: false, writable: true }
    }
}

/// File type bits of [`Stat::mode`]: none
pub const STAT_MODE_NULL: u32 = 0;
/// File type bits of [`Stat::mode`]: directory
pub const STAT_MODE_DIR: u32 = 0o040_000;
/// File type bits of [`Stat::mode`]: regular file
pub const STAT_MODE_REG: u32 = 0o100_000;
/// File type bits of [`Stat::mode`]: link
pub const STAT_MODE_LNK: u32 = 0o120_000;

/// The status of a file
#[derive(Clone, Copy, Debug, PartialEq, Eq, Structural)]
pub struct Stat {
    pub dev: u32,
    pub ino: u32,
    pub mode: u32,
    pub off: usize,
    pub size: u32,
}

/// The 32 bytes of a file status as a 64-bit kernel lays it out for user
/// space: the device, inode number and mode, four bytes of padding, the
/// offset on eight bytes, the size and four bytes of padding, little endian.
pub open spec fn stat_bytes(s: Stat) -> Seq<u8> {
    vstd::bytes::spec_u32_to_le_bytes(s.dev) + vstd::bytes::spec_u32_to_le_bytes(s.ino)
        + vstd::bytes::spec_u32_to_le_bytes(s.mode) + seq![0u8, 0u8, 0u8, 0u8]
        + vstd::bytes::spec_u64_to_le_bytes(s.off as u64) + vstd::bytes::spec_u32_to_le_bytes(s.size)
        + seq![0u8, 0u8, 0u8, 0u8]
}

impl Stat {
    /// The bytes of the status as user space reads them (see [`stat_bytes`])
    pub fn to_bytes(&self) -> (b: Vec<u8>)
        ensures
            b@ == stat_bytes(*self),
            b@.len() == 32,
    {
        proof {
            vstd::bytes::lemma_auto_spec_u32_to_from_le_bytes();
            vstd::bytes::lemma_auto_spec_u64_to_from_le_bytes();
        }
        let mut b = vstd::bytes::u32_to_le_bytes(self.dev);
        let mut ino = vstd::bytes::u32_to_le_bytes(self.ino);
        b.append(&mut ino);
        let mut mode = vstd::bytes::u32_to_le_bytes(self.mode);
        b.append(&mut mode);
        let mut pad = vec![0u8, 0u8, 0u8, 0u8];
        b.append(&mut pad);
        let mut off = vstd::bytes::u64_to_le_bytes(self.off as u64);
        b.append(&mut off);
        let mut size = vstd::bytes::u32_to_le_bytes(self.size);
        b.append(&mut size);
        let mut pad2 = vec![0u8, 0u8, 0u8, 0u8];
        b.append(&mut pad2);
        assert(b@ =~= stat_bytes(*self));
        b
    }
}

/// Open flag: read only
pub const O_RDONLY: u32 = 0;
/// Open flag: write only
pub const O_WRONLY: u32 = 1;
/// Open flag: read and write
pub const O_RDWR: u32 = 2;
/// Open flag: create the file if it does not exist
pub const O_CREATE: u32 = 512;
/// Open flag: empty the file
pub const O_TRUNC: u32 = 1024;

/// Flags of `open`
#[derive(Clone, Copy, Debug, PartialEq, Eq, Structural)]
pub struct OpenFlags {
    pub bits: u32,
}

impl OpenFlags {
    /// Whether every flag of `other` is set.
    pub open spec fn has(self, other: u32) -> bool {
        self.bits & other == other
    }

    /// The flags, if every bit of `bits` is a known flag
    pub fn from_bits(bits: u32) -> (f: Option<Self>)
        ensures
            f == (if bits & !(O_WRONLY | O_RDWR | O_CREATE | O_TRUNC) == 0 {
                Some(OpenFlags { bits })
            } else {
                None::<OpenFlags>
            }),
    {
        if bits & !(O_WRONLY | O_RDWR | O_CREATE | O_TRUNC) == 0 {
            Some(OpenFlags { bits })
        } else {
            None
        }
    }

    /// Whether every flag of `other` is set
    pub fn contains(&self, other: u32) -> (b: bool)
        ensures
            b == self.has(other),
    {
        self.bits & other == other
    }

    /// Whether a file opened so may be read and written: read only is the
    /// empty flag, so it is always present
    pub fn read_write(&self) -> (rw: (bool, bool))
        ensures
            rw.0 == (self.has(O_RDONLY) || self.has(O_RDWR)),
            rw.1 == (self.has(O_WRONLY) || self.has(O_RDWR)),
    {
        (self.contains(O_RDONLY) || self.contains(O_RDWR), self.contains(O_WRONLY) || self.contains(O_RDWR))
    }
}

/// A path: the absolute path `path`, else `path` under directory `cwd`.
pub open spec fn resolved(cwd: Seq<char>, path: Seq<char>) -> Seq<char> {
    if path.len() > 0 && path[0] == '/' {
        path
    } else {
        cwd + seq!['/'] + path
    }
}

/// The components kept so far, after component `part`: empty components and
/// "." are skipped, ".." drops the last kept component if any.
pub open spec fn step(parts: Seq<Seq<char>>, part: Seq<char>) -> Seq<Seq<char>> {
    if part.len() == 0 || part == seq!['.'] {
        parts
    } else if part == seq!['.', '.'] {
        if parts.len() > 0 { parts.drop_last() } else { parts }
    } else {
        parts.push(part)
    }
}

/// Reading `s` from the left: the components kept so far and the
/// component being read.
pub open spec fn scan(s: Seq<char>) -> (Seq<Seq<char>>, Seq<char>)
    decreases s.len(),
{
    if s.len() == 0 {
        (Seq::empty(), Seq::empty())
    } else {
        let (parts, cur) = scan(s.drop_last());
        if s.last() == '/' {
            (step(parts, cur), Seq::empty())
        } else {
            (parts, cur.push(s.last()))
        }
    }
}

/// The components of the normal form of `s`.
pub open spec fn normal_parts(s: Seq<char>) -> Seq<Seq<char>> {
    step(scan(s).0, scan(s).1)
}

/// The components joined with '/'.
pub open spec fn join(parts: Seq<Seq<char>>) -> Seq<char>
    decreases parts.len(),
{
    if parts.len() == 0 {
        Seq::empty()
    } else if parts.len() == 1 {
        parts[0]
    } else {
        join(parts.drop_last()) + seq!['/'] + parts.last()
    }
}

/// The absolute, normal form of `path` seen from directory `cwd`.
pub open spec fn full_path(cwd: Seq<char>, path: Seq<char>) -> Seq<char> {
    seq!['/'] + join(normal_parts(resolved(cwd, path)))
}

/// The characters of `s`
fn str_chars(s: &str) -> (v: Vec<char>)
    ensures
        v@ == s@,
{
    let n = s.unicode_len();
    let mut v: Vec<char> = Vec::new();
    let mut i: usize = 0;
    while i < n
        invariant
            n == s@.len(),
            i <= n,
            v@ == s@.take(i as int),
        decreases n - i,
    {
        v.push(s.get_char(i));
        i = i + 1;
        assert(v@ =~= s@.take(i as int));
    }
    assert(s@.take(n as int) =~= s@);
    v
}

/// Append `c` to `s`, with `String::push`
#[verifier::external_body]
pub(crate) fn string_push(s: &mut String, c: char)
    ensures
        final(s)@ == old(s)@.push(c),
{
    s.push(c);
}

/// Keep or drop the components so far after component `cur`
fn step_exec(parts: &mut Vec<Vec<char>>, cur: Vec<char>)
    ensures
        final(parts)@.map_values(|p: Vec<char>| p@) == step(old(parts)@.map_values(|p: Vec<char>| p@), cur@),
{
    let ghost before = parts@.map_values(|p: Vec<char>| p@);
    if cur.len() == 0 || (cur.len() == 1 && cur[0] == '.') {
        proof {
            if cur@.len() == 1 {
                assert(cur@ =~= seq!['.']);
            }
        }
    } else if cur.len() == 2 && cur[0] == '.' && cur[1] == '.' {
        assert(cur@ =~= seq!['.', '.']);
        if parts.len() > 0 {
            let _ = parts.pop();
            assert(parts@.map_values(|p: Vec<char>| p@) =~= before.drop_last());
        }
    } else {
        proof {
            if cur@ == seq!['.'] {
                assert(cur@[0] == '.');
            }
            if cur@ == seq!['.', '.'] {
                assert(cur@[0] == '.' && cur@[1] == '.');
            }
        }
        parts.push(cur);
        assert(parts@.map_values(|p: Vec<char>| p@) =~= before.push(cur@));
    }
}

/// The absolute path of `path` seen from directory `cwd`, in normal form: a
/// '/' followed by the components joined with '/', where empty components
/// and "." are dropped and ".." drops the component before it
pub fn get_full_path(cwd: &str, path: &str) -> (full: String)
    ensures
        full@ == full_path(cwd@, path@),
{
    let p = str_chars(path);
    let mut resolved_path: Vec<char> = Vec::new();
    if p.len() > 0 && p[0] == '/' {
        resolved_path = p;
    } else {
        resolved_path = str_chars(cwd);
        resolved_path.push('/');
        let mut i: usize = 0;
        let ghost base = resolved_path@;
        while i < p.len()
            invariant
                i <= p@.len(),
                resolved_path@ == base + p@.take(i as int),
            decreases p@.len() - i,
        {
            resolved_path.push(p[i]);
            i = i + 1;
            assert(resolved_path@ =~= base + p@.take(i as int));
        }
        assert(p@.take(p@.len() as int) =~= p@);
    }
    let ghost r = resolved(cwd@, path@);
    assert(resolved_path@ == r);
    let mut parts: Vec<Vec<char>> = Vec::new();
    let mut cur: Vec<char> = Vec::new();
    let mut i: usize = 0;
    while i < resolved_path.len()
        invariant
            resolved_path@ == r,
            i <= r.len(),
            (parts@.map_values(|q: Vec<char>| q@), cur@) == scan(r.take(i as int)),
        decreases r.len() - i,
    {
        let c = resolved_path[i];
        proof {
            assert(r.take(i + 1).drop_last() =~= r.take(i as int));
            assert(r.take(i + 1).last() == c);
        }
        if c == '/' {
            step_exec(&mut parts, cur);
            cur = Vec::new();
        } else {
            cur.push(c);
        }
        i = i + 1;
    }
    assert(r.take(r.len() as int) =~= r);
    step_exec(&mut parts, cur);
    let ghost ps = parts@.map_values(|q: Vec<char>| q@);
    assert(ps == normal_parts(r));
    // join
    let mut full = String::new();
    string_push(&mut full, '/');
    let mut k: usize = 0;
    while k < parts.len()
        invariant
            k <= parts@.len(),
            ps == parts@.map_values(|q: Vec<char>| q@),
            full@ == seq!['/'] + join(ps.take(k as int)),
        decreases parts@.len() - k,
    {
        let ghost before = full@;
        if k > 0 {
            string_push(&mut full, '/');
        }
        let ghost mid = full@;
        let n = parts[k].len();
        let mut j: usize = 0;
        while j < n
            invariant
                k < parts@.len(),
                n == parts@[k as int]@.len(),
                j <= n,
                full@ == mid + parts@[k as int]@.take(j as int),
            decreases n - j,
        {
            let ch = parts[k][j];
            string_push(&mut full, ch);
            j = j + 1;
            assert(full@ =~= mid + parts@[k as int]@.take(j as int));
        }
        proof {
            assert(parts@[k as int]@.take(n as int) =~= parts@[k as int]@);
            let t1 = ps.take(k + 1);
            assert(t1.drop_last() =~= ps.take(k as int));
            assert(t1.last() == parts@[k as int]@);
            if k == 0 {
                assert(join(t1) == t1[0]);
                assert(full@ =~= seq!['/'] + join(t1));
            } else {
                assert(full@ =~= seq!['/'] + join(t1));
            }
        }
        k = k + 1;
    }
    assert(ps.take(parts@.len() as int) =~= ps);
    full
}

/// A component of a normal path: not empty, not "." nor "..", and without '/'.
pub open spec fn valid_part(part: Seq<char>) -> bool {
    &&& part.len() > 0
    &&& part != seq!['.']
    &&& part != seq!['.', '.']
    &&& forall|i: int| 0 <= i < part.len() ==> #[trigger] part[i] != '/'
}

/// Every component is a component of a normal path.
pub open spec fn valid_parts(parts: Seq<Seq<char>>) -> bool {
    forall|i: int| 0 <= i < parts.len() ==> valid_part(#[trigger] parts[i])
}

/// Keeping or dropping a component keeps the components valid.
proof fn lemma_step_valid(parts: Seq<Seq<char>>, part: Seq<char>)
    requires
        valid_parts(parts),
        forall|i: int| 0 <= i < part.len() ==> #[trigger] part[i] != '/',
    ensures
        valid_parts(step(parts, part)),
{
    if part.len() == 0 || part == seq!['.'] {
    } else if part == seq!['.', '.'] {
    } else {
        assert forall|i: int| 0 <= i < parts.push(part).len() implies valid_part(#[trigger] parts.push(part)[i]) by {
            if i < parts.len() {
                assert(parts.push(part)[i] == parts[i]);
            }
        }
    }
}

/// Reading a path keeps valid components, and the component being read has
/// no '/'.
proof fn lemma_scan_valid(s: Seq<char>)
    ensures
        valid_parts(scan(s).0),
        forall|i: int| 0 <= i < scan(s).1.len() ==> #[trigger] scan(s).1[i] != '/',
    decreases s.len(),
{
    if s.len() > 0 {
        lemma_scan_valid(s.drop_last());
        let (parts, cur) = scan(s.drop_last());
        if s.last() == '/' {
            lemma_step_valid(parts, cur);
        } else {
            assert forall|i: int| 0 <= i < cur.push(s.last()).len() implies #[trigger] cur.push(s.last())[i] != '/' by {
                if i < cur.len() {
                    assert(cur.push(s.last())[i] == cur[i]);
                }
            }
        }
    }
}

/// The components of a normal form are valid: none is empty, ".", "..", or
/// holds a '/'.
pub proof fn lemma_normal_parts_valid(s: Seq<char>)
    ensures
        valid_parts(normal_parts(s)),
{
    lemma_scan_valid(s);
    lemma_step_valid(scan(s).0, scan(s).1);
}

/// Reading characters without '/' only extends the component being read.
proof fn lemma_scan_append_word(s: Seq<char>, w: Seq<char>)
    requires
        forall|i: int| 0 <= i < w.len() ==> #[trigger] w[i] != '/',
    ensures
        scan(s + w) == (scan(s).0, scan(s).1 + w),
    decreases w.len(),
{
    if w.len() == 0 {
        assert(s + w =~= s);
        assert(scan(s).1 + w =~= scan(s).1);
    } else {
        let w0 = w.drop_last();
        lemma_scan_append_word(s, w0);
        assert((s + w).drop_last() =~= s + w0);
        assert((s + w).last() == w.last());
        assert(scan(s).1 + w0 + seq![w.last()] =~= scan(s).1 + w);
        assert((scan(s).1 + w0).push(w.last()) =~= scan(s).1 + w);
    }
}

/// Reading a '/' and then a word ends the component read so far.
proof fn lemma_scan_append_slash_word(s: Seq<char>, w: Seq<char>)
    requires
        forall|i: int| 0 <= i < w.len() ==> #[trigger] w[i] != '/',
    ensures
        scan(s + seq!['/'] + w) == (step(scan(s).0, scan(s).1), w),
{
    let t = s + seq!['/'];
    assert(t.drop_last() =~= s);
    assert(t.last() == '/');
    lemma_scan_append_word(t, w);
    assert(Seq::<char>::empty() + w =~= w);
}

/// Reading "/" and valid components joined with '/' gives back the
/// components, the last one still being read.
proof fn lemma_scan_joined(parts: Seq<Seq<char>>)
    requires
        valid_parts(parts),
        parts.len() > 0,
    ensures
        scan(seq!['/'] + join(parts)) == (parts.drop_last(), parts.last()),
    decreases parts.len(),
{
    let slash: Seq<char> = seq!['/'];
    assert(slash.drop_last() =~= Seq::<char>::empty());
    assert(slash.last() == '/');
    assert(scan(Seq::<char>::empty()) == (Seq::<Seq<char>>::empty(), Seq::<char>::empty()));
    assert(scan(slash) == (step(Seq::<Seq<char>>::empty(), Seq::<char>::empty()), Seq::<char>::empty()));
    if parts.len() == 1 {
        assert(valid_part(parts[0]));
        lemma_scan_append_word(slash, parts[0]);
        assert(Seq::<char>::empty() + parts[0] =~= parts[0]);
        assert(parts.drop_last() =~= Seq::<Seq<char>>::empty());
    } else {
        let q = parts.drop_last();
        assert(valid_parts(q)) by {
            assert forall|i: int| 0 <= i < q.len() implies valid_part(#[trigger] q[i]) by {
                assert(q[i] == parts[i]);
            }
        }
        lemma_scan_joined(q);
        assert(valid_part(parts[parts.len() - 1]));
        assert(seq!['/'] + join(parts) =~= (seq!['/'] + join(q)) + seq!['/'] + parts.last());
        lemma_scan_append_slash_word(seq!['/'] + join(q), parts.last());
        assert(valid_part(q.last()));
        assert(q.drop_last().push(q.last()) =~= q);
    }
}

/// A normal path is its own normal form: taking the full path twice gives
/// what taking it once gives.
pub proof fn lemma_full_path_idempotent(cwd: Seq<char>, path: Seq<char>)
    ensures
        full_path(cwd, full_path(cwd, path)) == full_path(cwd, path),
{
    let parts = normal_parts(resolved(cwd, path));
    lemma_normal_parts_valid(resolved(cwd, path));
    let x = full_path(cwd, path);
    assert(x[0] == '/');
    assert(resolved(cwd, x) == x);
    if parts.len() == 0 {
        let slash: Seq<char> = seq!['/'];
        assert(x =~= slash);
        assert(slash.drop_last() =~= Seq::<char>::empty());
        assert(slash.last() == '/');
        assert(scan(Seq::<char>::empty()) == (Seq::<Seq<char>>::empty(), Seq::<char>::empty()));
        assert(scan(slash) == (Seq::<Seq<char>>::empty(), Seq::<char>::empty()));
        assert(normal_parts(x) =~= Seq::<Seq<char>>::empty());
    } else {
        lemma_scan_joined(parts);
        assert(valid_part(parts.last()));
        assert(parts.drop_last().push(parts.last()) =~= parts);
        assert(normal_parts(x) == parts);
    }
}

/// An absolute path names the same full path from every directory.
pub proof fn lemma_full_path_absolute(cwd1: Seq<char>, cwd2: Seq<char>, path: Seq<char>)
    requires
        path.len() > 0,
        path[0] == '/',
    ensures
        full_path(cwd1, path) == full_path(cwd2, path),
{
}

} // verus!
