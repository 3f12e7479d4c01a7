//! What the loader reads of an ELF64 image, stated over its bytes, and the
//! calls into `xmas_elf` that read it.
//!
//! `xmas_elf` reads header fields in the machine's byte order; the statements
//! below are those of a little-endian machine, the only kind this kernel
//! targets. Its readers also assert that each header lies at an address
//! aligned for `u64`; the image is therefore passed as a whole `Vec<u8>`, whose
//! buffer comes from the global allocator with at least that alignment.
use vstd::prelude::*;

verus! {

/// The ELF magic number.
pub open spec fn elf_magic_ok(s: Seq<u8>) -> bool {
    s.len() >= 4 && s[0] == 0x7fu8 && s[1] == 0x45u8 && s[2] == 0x4cu8 && s[3] == 0x46u8
}

pub closed spec fn le16(s: Seq<u8>, o: int) -> int {
    s[o] as int + s[o + 1] as int * 0x100
}

pub closed spec fn le32(s: Seq<u8>, o: int) -> int {
    le16(s, o) + le16(s, o + 2) * 0x1_0000
}

pub closed spec fn le64(s: Seq<u8>, o: int) -> int {
    le32(s, o) + le32(s, o + 4) * 0x1_0000_0000
}

pub closed spec fn elf_entry(s: Seq<u8>) -> int {
    le64(s, 24)
}

pub closed spec fn ph_offset(s: Seq<u8>) -> int {
    le64(s, 32)
}

pub closed spec fn ph_entry_size(s: Seq<u8>) -> int {
    le16(s, 54)
}

pub closed spec fn ph_count(s: Seq<u8>) -> int {
    le16(s, 56)
}

/// Where program header `i` starts.
pub closed spec fn ph_start(s: Seq<u8>, i: int) -> int {
    ph_offset(s) + i * ph_entry_size(s)
}

/// PT_LOAD.
pub closed spec fn seg_is_load(s: Seq<u8>, i: int) -> bool {
    le32(s, ph_start(s, i)) == 1
}

pub closed spec fn seg_flags(s: Seq<u8>, i: int) -> int {
    le32(s, ph_start(s, i) + 4)
}

pub closed spec fn seg_offset(s: Seq<u8>, i: int) -> int {
    le64(s, ph_start(s, i) + 8)
}

pub closed spec fn seg_vaddr(s: Seq<u8>, i: int) -> int {
    le64(s, ph_start(s, i) + 16)
}

pub closed spec fn seg_file_size(s: Seq<u8>, i: int) -> int {
    le64(s, ph_start(s, i) + 32)
}

pub closed spec fn seg_mem_size(s: Seq<u8>, i: int) -> int {
    le64(s, ph_start(s, i) + 40)
}

/// A 64-bit image whose header and program-header table `xmas_elf` reads
/// without failing: magic, class, sizes, a table inside the image made of
/// full-size entries at 8-byte-aligned offsets.
pub open spec fn elf_header_ok(s: Seq<u8>) -> bool {
    &&& s.len() >= 64
    &&& elf_magic_ok(s)
    &&& s[4] == 2u8
    &&& ph_offset(s) > 0
    &&& ph_entry_size(s) >= 56
    &&& ph_offset(s) % 8 == 0
    &&& ph_entry_size(s) % 8 == 0
    &&& ph_offset(s) + ph_count(s) * ph_entry_size(s) <= s.len()
}

/// One program header, as the loader uses it.
pub struct ProgramSegment {
    pub is_load: bool,
    pub flags: u32,
    pub offset: u64,
    pub vaddr: u64,
    pub file_size: u64,
    pub mem_size: u64,
}

/// Relies on `xmas_elf::ElfFile::new` and `HeaderPt2::entry_point`: the
/// `e_entry` field, eight bytes at offset 24.
#[verifier::external_body]
fn xmas_entry_point(data: &Vec<u8>) -> (r: u64)
    requires
        elf_header_ok(data@),
    ensures
        r as int == elf_entry(data@),
{
    match xmas_elf::ElfFile::new(data.as_slice()) {
        Ok(elf) => elf.header.pt2.entry_point(),
        Err(_) => 0,
    }
}

/// Relies on `xmas_elf::ElfFile::new` and `HeaderPt2::ph_count`: the `e_phnum`
/// field, two bytes at offset 56.
#[verifier::external_body]
fn xmas_ph_count(data: &Vec<u8>) -> (r: u16)
    requires
        elf_header_ok(data@),
    ensures
        r as int == ph_count(data@),
{
    match xmas_elf::ElfFile::new(data.as_slice()) {
        Ok(elf) => elf.header.pt2.ph_count(),
        Err(_) => 0,
    }
}

/// Relies on `xmas_elf::ElfFile::program_header` and `ProgramHeader::get_type`:
/// whether the `p_type` field of header `i` is PT_LOAD (1).
#[verifier::external_body]
fn xmas_ph_is_load(data: &Vec<u8>, i: u16) -> (r: bool)
    requires
        elf_header_ok(data@),
        i < ph_count(data@),
    ensures
        r == seg_is_load(data@, i as int),
{
    match xmas_elf::ElfFile::new(data.as_slice()) {
        Ok(elf) => match elf.program_header(i) {
            Ok(ph) => ph.get_type() == Ok(xmas_elf::program::Type::Load),
            Err(_) => false,
        },
        Err(_) => false,
    }
}

/// Relies on `xmas_elf::ElfFile::program_header` and `ProgramHeader::flags`:
/// the `p_flags` field of header `i`.
#[verifier::external_body]
fn xmas_ph_flags(data: &Vec<u8>, i: u16) -> (r: u32)
    requires
        elf_header_ok(data@),
        i < ph_count(data@),
    ensures
        r as int == seg_flags(data@, i as int),
{
    match xmas_elf::ElfFile::new(data.as_slice()) {
        Ok(elf) => match elf.program_header(i) {
            Ok(ph) => ph.flags().0,
            Err(_) => 0,
        },
        Err(_) => 0,
    }
}

/// Relies on `xmas_elf::ElfFile::program_header` and `ProgramHeader::offset`:
/// the `p_offset` field of header `i`.
#[verifier::external_body]
fn xmas_ph_offset(data: &Vec<u8>, i: u16) -> (r: u64)
    requires
        elf_header_ok(data@),
        i < ph_count(data@),
    ensures
        r as int == seg_offset(data@, i as int),
{
    match xmas_elf::ElfFile::new(data.as_slice()) {
        Ok(elf) => match elf.program_header(i) {
            Ok(ph) => ph.offset(),
            Err(_) => 0,
        },
        Err(_) => 0,
    }
}

/// Relies on `xmas_elf::ElfFile::program_header` and `ProgramHeader::virtual_addr`:
/// the `p_vaddr` field of header `i`.
#[verifier::external_body]
fn xmas_ph_vaddr(data: &Vec<u8>, i: u16) -> (r: u64)
    requires
        elf_header_ok(data@),
        i < ph_count(data@),
    ensures
        r as int == seg_vaddr(data@, i as int),
{
    match xmas_elf::ElfFile::new(data.as_slice()) {
        Ok(elf) => match elf.program_header(i) {
            Ok(ph) => ph.virtual_addr(),
            Err(_) => 0,
        },
        Err(_) => 0,
    }
}

/// Relies on `xmas_elf::ElfFile::program_header` and `ProgramHeader::file_size`:
/// the `p_filesz` field of header `i`.
#[verifier::external_body]
fn xmas_ph_file_size(data: &Vec<u8>, i: u16) -> (r: u64)
    requires
        elf_header_ok(data@),
        i < ph_count(data@),
    ensures
        r as int == seg_file_size(data@, i as int),
{
    match xmas_elf::ElfFile::new(data.as_slice()) {
        Ok(elf) => match elf.program_header(i) {
            Ok(ph) => ph.file_size(),
            Err(_) => 0,
        },
        Err(_) => 0,
    }
}

/// Relies on `xmas_elf::ElfFile::program_header` and `ProgramHeader::mem_size`:
/// the `p_memsz` field of header `i`.
#[verifier::external_body]
fn xmas_ph_mem_size(data: &Vec<u8>, i: u16) -> (r: u64)
    requires
        elf_header_ok(data@),
        i < ph_count(data@),
    ensures
        r as int == seg_mem_size(data@, i as int),
{
    match xmas_elf::ElfFile::new(data.as_slice()) {
        Ok(elf) => match elf.program_header(i) {
            Ok(ph) => ph.mem_size(),
            Err(_) => 0,
        },
        Err(_) => 0,
    }
}

/// The entry address that the image declares.
pub fn entry_point(data: &Vec<u8>) -> (r: u64)
    requires
        elf_header_ok(data@),
    ensures
        r as int == elf_entry(data@),
{
    xmas_entry_point(data)
}

/// Number of program headers.
pub fn program_header_count(data: &Vec<u8>) -> (r: u16)
    requires
        elf_header_ok(data@),
    ensures
        r as int == ph_count(data@),
{
    xmas_ph_count(data)
}

/// Program header `i`.
pub fn program_header(data: &Vec<u8>, i: u16) -> (r: ProgramSegment)
    requires
        elf_header_ok(data@),
        i < ph_count(data@),
    ensures
        r.is_load == seg_is_load(data@, i as int),
        r.flags as int == seg_flags(data@, i as int),
        r.offset as int == seg_offset(data@, i as int),
        r.vaddr as int == seg_vaddr(data@, i as int),
        r.file_size as int == seg_file_size(data@, i as int),
        r.mem_size as int == seg_mem_size(data@, i as int),
{
    ProgramSegment {
        is_load: xmas_ph_is_load(data, i),
        flags: xmas_ph_flags(data, i),
        offset: xmas_ph_offset(data, i),
        vaddr: xmas_ph_vaddr(data, i),
        file_size: xmas_ph_file_size(data, i),
        mem_size: xmas_ph_mem_size(data, i),
    }
}

/// The little-endian readings, unfolded.
pub proof fn lemma_le(s: Seq<u8>, o: int)
    ensures
        le16(s, o) == s[o] as int + s[o + 1] as int * 0x100,
        le32(s, o) == le16(s, o) + le16(s, o + 2) * 0x1_0000,
        le64(s, o) == le32(s, o) + le32(s, o + 4) * 0x1_0000_0000,
{
}

/// Where each header field lies in the image.
pub proof fn lemma_elf_fields(s: Seq<u8>, i: int)
    ensures
        elf_entry(s) == le64(s, 24),
        ph_offset(s) == le64(s, 32),
        ph_entry_size(s) == le16(s, 54),
        ph_count(s) == le16(s, 56),
        ph_start(s, i) == ph_offset(s) + i * ph_entry_size(s),
        seg_is_load(s, i) == (le32(s, ph_start(s, i)) == 1),
        seg_flags(s, i) == le32(s, ph_start(s, i) + 4),
        seg_offset(s, i) == le64(s, ph_start(s, i) + 8),
        seg_vaddr(s, i) == le64(s, ph_start(s, i) + 16),
        seg_file_size(s, i) == le64(s, ph_start(s, i) + 32),
        seg_mem_size(s, i) == le64(s, ph_start(s, i) + 40),
{
}

/// The fields read from an image are never negative.
pub proof fn lemma_fields_nonneg(s: Seq<u8>, i: int)
    ensures
        0 <= seg_vaddr(s, i),
        0 <= seg_mem_size(s, i),
        0 <= seg_file_size(s, i),
        0 <= seg_offset(s, i),
        0 <= seg_flags(s, i) <= u32::MAX,
        0 <= elf_entry(s),
        0 <= ph_count(s),
{
}

/// The two bytes at `o`, little-endian.
pub fn read_le16(data: &Vec<u8>, o: usize) -> (r: u16)
    requires
        o + 2 <= data@.len(),
    ensures
        r as int == le16(data@, o as int),
{
    let n = data.len();
    let lo: u16 = data[o] as u16;
    let hi: u16 = data[o + 1] as u16;
    assert(hi <= 0xff && lo <= 0xff);
    lo + hi * 0x100
}

/// The four bytes at `o`, little-endian.
pub fn read_le32(data: &Vec<u8>, o: usize) -> (r: u32)
    requires
        o + 4 <= data@.len(),
    ensures
        r as int == le32(data@, o as int),
{
    let n = data.len();
    let lo = read_le16(data, o);
    let hi = read_le16(data, o + 2);
    lo as u32 + (hi as u32) * 0x1_0000
}

/// The eight bytes at `o`, little-endian.
pub fn read_le64(data: &Vec<u8>, o: usize) -> (r: u64)
    requires
        o + 8 <= data@.len(),
    ensures
        r as int == le64(data@, o as int),
{
    let n = data.len();
    let lo = read_le32(data, o);
    let hi = read_le32(data, o + 4);
    lo as u64 + (hi as u64) * 0x1_0000_0000
}

/// Whether the header and program-header table can be read (see `elf_header_ok`),
/// with little-endian data.
pub fn check_elf_header(data: &Vec<u8>) -> (r: bool)
    ensures
        r == (elf_header_ok(data@) && data@[5] == 1u8),
{
    let len = data.len();
    if len < 64 {
        return false;
    }
    if !(data[0] == 0x7f && data[1] == 0x45 && data[2] == 0x4c && data[3] == 0x46) {
        return false;
    }
    if data[4] != 2 || data[5] != 1 {
        return false;
    }
    let phoff = read_le64(data, 32);
    let phentsize = read_le16(data, 54);
    let phnum = read_le16(data, 56);
    if phoff == 0 || phentsize < 56 || phoff % 8 != 0 || phentsize % 8 != 0 {
        return false;
    }
    if phoff > len as u64 {
        return false;
    }
    proof {
        assert((phnum as int) * (phentsize as int) <= 0xffff * 0xffff) by (nonlinear_arith)
            requires
                phnum <= 0xffff,
                phentsize <= 0xffff,
        ;
    }
    let table: u64 = (phnum as u64) * (phentsize as u64);
    table <= len as u64 - phoff
}

} // verus!
