//! The loadable segments of an ELF file, read with `xmas_elf`.

use vstd::prelude::*;
use xmas_elf::program::{Flags, ProgramHeader, Type};
use xmas_elf::header::Class;
use xmas_elf::ElfFile;

verus! {

#[verifier::external_type_specification]
#[verifier::external_body]
pub struct ExElfFile<'a>(ElfFile<'a>);

#[verifier::external_type_specification]
#[verifier::external_body]
pub struct ExProgramHeader<'a>(ProgramHeader<'a>);

/// An ELF file whose header `xmas_elf` has read from `data`
pub struct ElfImage<'a> {
    file: ElfFile<'a>,
    data: &'a [u8],
}

impl<'a> View for ElfImage<'a> {
    type V = Seq<u8>;

    /// The bytes of the file.
    closed spec fn view(&self) -> Seq<u8> {
        self.data@
    }
}

impl<'a> ElfImage<'a> {
    /// The number of bytes of the file
    pub fn len(&self) -> (n: usize)
        ensures
            n == self@.len(),
    {
        self.data.len()
    }
}

/// Program header `index` of an ELF file, as `xmas_elf` reads it
pub struct ElfProgramHeader<'a> {
    header: ProgramHeader<'a>,
    data: &'a [u8],
    index: u16,
}

impl<'a> View for ElfProgramHeader<'a> {
    type V = (Seq<u8>, u16);

    /// The bytes of the file and the index of the header.
    closed spec fn view(&self) -> (Seq<u8>, u16) {
        (self.data@, self.index)
    }
}

/// Whether `xmas_elf` reads an ELF header from `data`.
pub uninterp spec fn elf_parses(data: Seq<u8>) -> bool;

/// The entry point that the ELF header of `data` gives.
pub uninterp spec fn elf_entry(data: Seq<u8>) -> u64;

/// The number of program headers that the ELF header of `data` gives.
pub uninterp spec fn elf_ph_count(data: Seq<u8>) -> u16;

/// Where in `data` the program-header table starts, as the ELF header of
/// `data` gives it.
pub uninterp spec fn elf_ph_table_offset(data: Seq<u8>) -> u64;

/// The size of one program-header entry, as the ELF header of `data` gives
/// it.
pub uninterp spec fn elf_ph_entry_size(data: Seq<u8>) -> u16;

/// Whether the ELF header of `data` is of the 64-bit class.
pub uninterp spec fn elf_class64(data: Seq<u8>) -> bool;

/// Program header `index` of `data` can be handed to `xmas_elf`: either the
/// crate refuses it before reading (the index is past the count, or the
/// table offset or entry size is 0), or the entry lies inside `data`, is at
/// least as large as the crate's program-header structure (56 bytes for the
/// 64-bit class, 32 for the 32-bit one) and starts at an offset aligned for
/// it (8, resp. 4). Elsewhere the crate slices out of bounds or fails an
/// assertion.
pub open spec fn ph_place_ok(data: Seq<u8>, index: u16) -> bool {
    let off = elf_ph_table_offset(data) as int;
    let size = elf_ph_entry_size(data) as int;
    let start = off + index * size;
    ||| !(index < elf_ph_count(data) && off > 0 && size > 0)
    ||| {
        &&& start + size <= data.len()
        &&& if elf_class64(data) { size >= 56 && start % 8 == 0 } else { size >= 32 && start % 4 == 0 }
    }
}

/// Whether `xmas_elf` reads program header `index` of `data`.
pub uninterp spec fn elf_ph_parses(data: Seq<u8>, index: u16) -> bool;

/// Whether program header `index` of `data` is loadable; `None` when its
/// type is none that `xmas_elf` knows.
pub uninterp spec fn elf_ph_load(data: Seq<u8>, index: u16) -> Option<bool>;

/// The virtual address of the segment of program header `index` of `data`.
pub uninterp spec fn elf_ph_vaddr(data: Seq<u8>, index: u16) -> u64;

/// The size in memory of the segment of program header `index` of `data`.
pub uninterp spec fn elf_ph_mem_size(data: Seq<u8>, index: u16) -> u64;

/// Where in `data` the segment of program header `index` starts.
pub uninterp spec fn elf_ph_offset(data: Seq<u8>, index: u16) -> u64;

/// The size in `data` of the segment of program header `index`.
pub uninterp spec fn elf_ph_file_size(data: Seq<u8>, index: u16) -> u64;

/// The flags word of program header `index` of `data`.
pub uninterp spec fn elf_ph_flags(data: Seq<u8>, index: u16) -> u32;

/// `xmas_elf::ElfFile::new`: reads the ELF header at the start of `data`;
/// `None` when the crate refuses it. The result depends on the bytes alone
/// (`xmas_elf` reads the fields in the target's byte order). The crate also
/// asserts that `data` lies at an address aligned for its header structures
/// (8 bytes for the 64-bit class, 4 for the 32-bit one) and panics
/// otherwise, so data that does not start at a multiple of 8 is not handed
/// to it: the result is `None` then. An address is no value a clause here
/// can speak of, so what is promised is that a file read is one the crate
/// reads, and that a file the crate refuses gives `None`.
#[verifier::external_body]
pub(crate) fn elf_new<'a>(data: &'a [u8]) -> (r: Option<ElfImage<'a>>)
    ensures
        r is Some ==> elf_parses(data@),
        !elf_parses(data@) ==> r is None,
        r matches Some(img) ==> img@ == data@,
{
    if data.as_ptr().align_offset(8) != 0 {
        return None;
    }
    match ElfFile::new(data) {
        Ok(file) => Some(ElfImage { file, data }),
        Err(_) => None,
    }
}

/// `HeaderPt2::entry_point` of the file's header: the entry point that the
/// header gives.
#[verifier::external_body]
pub(crate) fn elf_entry_point(img: &ElfImage) -> (e: u64)
    ensures
        e == elf_entry(img@),
{
    img.file.header.pt2.entry_point()
}

/// `HeaderPt2::ph_count` of the file's header: the number of program headers
/// that the header gives.
#[verifier::external_body]
fn elf_program_count(img: &ElfImage) -> (n: u16)
    ensures
        n == elf_ph_count(img@),
{
    img.file.header.pt2.ph_count()
}

/// `HeaderPt2::ph_offset`: where the program-header table starts.
#[verifier::external_body]
fn elf_table_offset(img: &ElfImage) -> (r: u64)
    ensures
        r == elf_ph_table_offset(img@),
{
    img.file.header.pt2.ph_offset()
}

/// `HeaderPt2::ph_entry_size`: the size of one program-header entry.
#[verifier::external_body]
fn elf_entry_size(img: &ElfImage) -> (r: u16)
    ensures
        r == elf_ph_entry_size(img@),
{
    img.file.header.pt2.ph_entry_size()
}

/// `HeaderPt1::class`, told apart into the 64-bit class or not.
#[verifier::external_body]
fn elf_is_64(img: &ElfImage) -> (r: bool)
    ensures
        r == elf_class64(img@),
{
    match img.file.header.pt1.class() {
        Class::SixtyFour => true,
        Class::ThirtyTwo => false,
        Class::None => false,
        Class::Other(_) => false,
    }
}

/// `ElfFile::program_header`: reads program header `index`; `None` when the
/// crate refuses it. The entry must lie where the crate can read it (see
/// [`ph_place_ok`]); as for [`elf_new`], the alignment of `data` itself in
/// memory is not stated.
#[verifier::external_body]
fn elf_program_header<'a>(img: &ElfImage<'a>, index: u16) -> (r: Option<ElfProgramHeader<'a>>)
    requires
        ph_place_ok(img@, index),
    ensures
        r is Some <==> elf_ph_parses(img@, index),
        r matches Some(ph) ==> ph@ == (img@, index),
{
    match img.file.program_header(index) {
        Ok(header) => Some(ElfProgramHeader { header, data: img.data, index }),
        Err(_) => None,
    }
}

/// `ProgramHeader::get_type`, told apart into loadable or not; `None` when
/// the crate knows no such type.
#[verifier::external_body]
fn ph_load(ph: &ElfProgramHeader) -> (r: Option<bool>)
    ensures
        r == elf_ph_load(ph@.0, ph@.1),
{
    match ph.header.get_type() {
        Ok(Type::Load) => Some(true),
        Ok(_) => Some(false),
        Err(_) => None,
    }
}

/// `ProgramHeader::virtual_addr`
#[verifier::external_body]
fn ph_virtual_addr(ph: &ElfProgramHeader) -> (r: u64)
    ensures
        r == elf_ph_vaddr(ph@.0, ph@.1),
{
    ph.header.virtual_addr()
}

/// `ProgramHeader::mem_size`
#[verifier::external_body]
fn ph_mem_size(ph: &ElfProgramHeader) -> (r: u64)
    ensures
        r == elf_ph_mem_size(ph@.0, ph@.1),
{
    ph.header.mem_size()
}

/// `ProgramHeader::offset`
#[verifier::external_body]
fn ph_offset(ph: &ElfProgramHeader) -> (r: u64)
    ensures
        r == elf_ph_offset(ph@.0, ph@.1),
{
    ph.header.offset()
}

/// `ProgramHeader::file_size`
#[verifier::external_body]
fn ph_file_size(ph: &ElfProgramHeader) -> (r: u64)
    ensures
        r == elf_ph_file_size(ph@.0, ph@.1),
{
    ph.header.file_size()
}

/// `ProgramHeader::flags`, as its word
#[verifier::external_body]
fn ph_flags(ph: &ElfProgramHeader) -> (r: u32)
    ensures
        r == elf_ph_flags(ph@.0, ph@.1),
{
    ph.header.flags().0
}

/// `Flags::is_read`: whether the flag of value 4 (bit 2) is set.
#[verifier::external_body]
fn flags_is_read(bits: u32) -> (r: bool)
    ensures
        r == (bits & 4u32 == 4u32),
{
    Flags(bits).is_read()
}

/// `Flags::is_write`: whether the flag of value 2 (bit 1) is set.
#[verifier::external_body]
fn flags_is_write(bits: u32) -> (r: bool)
    ensures
        r == (bits & 2u32 == 2u32),
{
    Flags(bits).is_write()
}

/// `Flags::is_execute`: whether the flag of value 1 (bit 0) is set.
#[verifier::external_body]
fn flags_is_execute(bits: u32) -> (r: bool)
    ensures
        r == (bits & 1u32 == 1u32),
{
    Flags(bits).is_execute()
}

/// A loadable segment: where it goes in memory, where its bytes are in the
/// file, and how it may be accessed
#[derive(Clone, Copy, Debug, PartialEq, Eq, Structural)]
pub struct ElfSegment {
    pub vaddr: u64,
    pub mem_size: u64,
    pub offset: u64,
    pub file_size: u64,
    pub readable: bool,
    pub writable: bool,
    pub executable: bool,
}

/// The segment that program header `index` of `data` describes.
pub open spec fn segment_of(data: Seq<u8>, index: u16) -> ElfSegment {
    ElfSegment {
        vaddr: elf_ph_vaddr(data, index),
        mem_size: elf_ph_mem_size(data, index),
        offset: elf_ph_offset(data, index),
        file_size: elf_ph_file_size(data, index),
        readable: elf_ph_flags(data, index) & 4u32 == 4u32,
        writable: elf_ph_flags(data, index) & 2u32 == 2u32,
        executable: elf_ph_flags(data, index) & 1u32 == 1u32,
    }
}

/// The loadable segments of the first `k` program headers of `data`, in
/// order; `None` when one of those headers lies where `xmas_elf` cannot read
/// it (see [`ph_place_ok`]), is refused, or has a type that is not known.
pub open spec fn load_segments(data: Seq<u8>, k: int) -> Option<Seq<ElfSegment>>
    decreases k,
{
    if k <= 0 {
        Some(Seq::empty())
    } else {
        match load_segments(data, k - 1) {
            None => None,
            Some(s) => {
                let i = (k - 1) as u16;
                if !ph_place_ok(data, i) || !elf_ph_parses(data, i) {
                    None
                } else {
                    match elf_ph_load(data, i) {
                        None => None,
                        Some(true) => Some(s.push(segment_of(data, i))),
                        Some(false) => Some(s),
                    }
                }
            },
        }
    }
}

/// The loadable segments of the file, in the order of their program
/// headers; `None` when a program header lies where `xmas_elf` cannot read
/// it, is refused, or has a type that is not known
pub fn elf_segments(img: &ElfImage) -> (r: Option<Vec<ElfSegment>>)
    ensures
        match r {
            Some(v) => load_segments(img@, elf_ph_count(img@) as int) == Some(v@),
            None => load_segments(img@, elf_ph_count(img@) as int) is None,
        },
{
    let count = elf_program_count(img);
    let table = elf_table_offset(img);
    let entry_size = elf_entry_size(img);
    let is64 = elf_is_64(img);
    let mut segs: Vec<ElfSegment> = Vec::new();
    let mut i: u16 = 0;
    while i < count
        invariant
            i <= count,
            count == elf_ph_count(img@),
            table == elf_ph_table_offset(img@),
            entry_size == elf_ph_entry_size(img@),
            is64 == elf_class64(img@),
            load_segments(img@, i as int) == Some(segs@),
        decreases count - i,
    {
        if table > 0 && entry_size > 0 {
            let a: u128 = i as u128;
            let b: u128 = entry_size as u128;
            assert(a * b <= 0xffff * 0xffff) by (nonlinear_arith)
                requires
                    a <= 0xffff,
                    b <= 0xffff,
            ;
            let prod: u128 = a * b;
            let start: u128 = table as u128 + prod;
            let size: u128 = entry_size as u128;
            let fits = start + size <= img.len() as u128 && if is64 {
                size >= 56 && start % 8 == 0
            } else {
                size >= 32 && start % 4 == 0
            };
            if !fits {
                proof {
                    lemma_load_segments_none(img@, i as int + 1, count as int);
                }
                return None;
            }
        }
        let ph = match elf_program_header(img, i) {
            Some(ph) => ph,
            None => {
                proof {
                    lemma_load_segments_none(img@, i as int + 1, count as int);
                }
                return None;
            },
        };
        match ph_load(&ph) {
            None => {
                proof {
                    lemma_load_segments_none(img@, i as int + 1, count as int);
                }
                return None;
            },
            Some(true) => {
                let flags = ph_flags(&ph);
                segs.push(ElfSegment {
                    vaddr: ph_virtual_addr(&ph),
                    mem_size: ph_mem_size(&ph),
                    offset: ph_offset(&ph),
                    file_size: ph_file_size(&ph),
                    readable: flags_is_read(flags),
                    writable: flags_is_write(flags),
                    executable: flags_is_execute(flags),
                });
            },
            Some(false) => {},
        }
        i = i + 1;
    }
    Some(segs)
}

/// The loadable segments of the ELF file `data`, in the order of their
/// program headers; `None` when `xmas_elf` cannot read its header or one of
/// its program headers, or a program header has a type that is not known,
/// and also when `data` does not start at a multiple of 8 (see `elf_new`)
pub fn elf_load_segments(data: &[u8]) -> (r: Option<Vec<ElfSegment>>)
    ensures
        r matches Some(v) ==> elf_parses(data@) && load_segments(data@, elf_ph_count(data@) as int) == Some(v@),
        !elf_parses(data@) || load_segments(data@, elf_ph_count(data@) as int) is None ==> r is None,
{
    match elf_new(data) {
        Some(img) => elf_segments(&img),
        None => None,
    }
}

/// Once a program header cannot be read, the segments of any longer prefix
/// cannot be either.
proof fn lemma_load_segments_none(data: Seq<u8>, j: int, k: int)
    requires
        0 < j <= k,
        load_segments(data, j) is None,
    ensures
        load_segments(data, k) is None,
    decreases k - j,
{
    if j < k {
        lemma_load_segments_none(data, j, k - 1);
    }
}

} // verus!
