//! What the loader reads of an ELF file, obtained through `xmas_elf`.
//!
//! `xmas_elf` reads header fields in the byte order of the machine it runs
//! on, which for this kernel's targets is little-endian.
use vstd::prelude::*;
use xmas_elf::header::{Class, Machine};
use xmas_elf::program::Type;
use xmas_elf::ElfFile;

verus! {

/// The fields of an ELF file header that the loader uses.
#[derive(Clone, Copy, Debug, PartialEq, Eq, Structural)]
pub struct ElfHeader {
    /// The class byte (`e_ident[EI_CLASS]`): 1 for 32-bit, 2 for 64-bit.
    pub class: u8,
    /// `e_machine` names RISC-V.
    pub riscv: bool,
    /// `e_entry`: the virtual address execution starts at.
    pub entry_point: u64,
    /// `e_phoff`: file offset of the program header table.
    pub ph_offset: u64,
    /// `e_phentsize`: size of one program header.
    pub ph_entry_size: u16,
    /// `e_phnum`: number of program headers.
    pub ph_count: u16,
}

/// The kind of a segment, as far as the loader cares.
#[derive(Clone, Copy, Debug, PartialEq, Eq, Structural)]
pub enum SegmentType {
    /// `PT_LOAD`.
    Load,
    /// Any other type that `xmas_elf` recognises.
    Other,
    /// A type value that `xmas_elf` rejects.
    Invalid,
}

/// The fields of one program header that the loader uses.
#[derive(Clone, Copy, Debug, PartialEq, Eq, Structural)]
pub struct ProgramHeaderInfo {
    pub seg_type: SegmentType,
    /// `p_offset`: where the segment's bytes start in the file.
    pub offset: u64,
    /// `p_vaddr`: where the segment starts in memory.
    pub virtual_addr: u64,
    /// `p_filesz`: how many bytes the file holds for it.
    pub file_size: u64,
    /// `p_memsz`: how many bytes it occupies in memory.
    pub mem_size: u64,
}

/// The header that `xmas_elf` reads from `data`, or `None` where it rejects
/// the file.
pub uninterp spec fn elf_header_of(data: Seq<u8>) -> Option<ElfHeader>;

/// Program header `index` of `data`, as `xmas_elf` reads it.
pub uninterp spec fn program_header_of(data: Seq<u8>, index: u16) -> ProgramHeaderInfo;

/// The ELF magic number starts `data`.
pub open spec fn has_elf_magic(data: Seq<u8>) -> bool {
    data.len() >= 4 && data[0] == 0x7f && data[1] == 0x45 && data[2] == 0x4c && data[3] == 0x46
}

/// `xmas_elf` accepts the header of `data`: magic number, a 32- or 64-bit
/// class byte, and room for the whole header of that class.
pub open spec fn elf_header_accepted(data: Seq<u8>) -> bool {
    &&& has_elf_magic(data)
    &&& data.len() >= 16
    &&& ((data[4] == 1 && data.len() >= 52) || (data[4] == 2 && data.len() >= 64))
}

/// Program header `index` of a 64-bit file lies inside `data`, is large
/// enough for `xmas_elf` to read, and starts at a multiple of eight bytes
/// (the alignment `xmas_elf` demands of a 64-bit program header).
pub open spec fn program_header_readable(h: ElfHeader, data_len: nat, index: u16) -> bool {
    &&& h.class == 2
    &&& index < h.ph_count
    &&& h.ph_offset > 0
    &&& h.ph_entry_size >= 56
    &&& h.ph_offset + (index + 1) * h.ph_entry_size <= data_len
    &&& (h.ph_offset + index * h.ph_entry_size) % 8 == 0
}

/// Reads the file header of `data` with `xmas_elf::ElfFile::new`, then its
/// class (`HeaderPt1::class`), machine (`HeaderPt2::machine`, `as_machine`),
/// entry point (`entry_point`) and program header table fields
/// (`ph_offset`, `ph_entry_size`, `ph_count`).
///
/// `xmas_elf` panics unless its input starts at an address aligned for its
/// header structs, so the bytes are first copied to an 8-aligned place
/// (`align_offset`, `rotate_right`); the values are those of `data`.
///
/// Claimed: the result is a function of `data` (`elf_header_of`); it is
/// `Some` exactly when the magic number, the class byte and the length are
/// right, and its class is byte 4 of `data`.
#[verifier::external_body]
pub(crate) fn read_elf_header(data: &[u8]) -> (r: Option<ElfHeader>)
    ensures
        r == elf_header_of(data@),
        r is Some <==> elf_header_accepted(data@),
        r is Some ==> r->0.class == data@[4],
{
    let mut buf = data.to_vec();
    buf.extend_from_slice(&[0u8; 8]);
    let at = buf.as_ptr().align_offset(8);
    buf.rotate_right(at);
    let elf = match ElfFile::new(&buf[at..][..data.len()]) { Ok(elf) => elf, Err(_) => return None };
    let pt2 = &elf.header.pt2;
    let class = match elf.header.pt1.class() { Class::None => 0, Class::ThirtyTwo => 1, Class::SixtyFour => 2, Class::Other(c) => c };
    let riscv = matches!(pt2.machine().as_machine(), Machine::RISC_V);
    Some(ElfHeader { class, riscv, entry_point: pt2.entry_point(), ph_offset: pt2.ph_offset(), ph_entry_size: pt2.ph_entry_size(), ph_count: pt2.ph_count() })
}

/// Reads program header `index` of `data` with `ElfFile::program_header`,
/// then its type (`get_type`), `offset`, `virtual_addr`, `file_size` and
/// `mem_size`. As for `read_elf_header`, the bytes are first copied to an
/// 8-aligned place; with the header's offset a multiple of eight, the
/// program header is then aligned as `xmas_elf` demands.
///
/// Claimed: the result is a function of `data` and `index`
/// (`program_header_of`).
#[verifier::external_body]
pub(crate) fn read_program_header(data: &[u8], index: u16) -> (r: ProgramHeaderInfo)
    requires
        elf_header_of(data@) is Some,
        program_header_readable(elf_header_of(data@)->0, data@.len(), index),
    ensures
        r == program_header_of(data@, index),
{
    let mut buf = data.to_vec();
    buf.extend_from_slice(&[0u8; 8]);
    let at = buf.as_ptr().align_offset(8);
    buf.rotate_right(at);
    let ph = ElfFile::new(&buf[at..][..data.len()]).unwrap().program_header(index).unwrap();
    let seg_type = match ph.get_type() { Ok(Type::Load) => SegmentType::Load, Ok(_) => SegmentType::Other, Err(_) => SegmentType::Invalid };
    ProgramHeaderInfo { seg_type, offset: ph.offset(), virtual_addr: ph.virtual_addr(), file_size: ph.file_size(), mem_size: ph.mem_size() }
}

} // verus!
