//! Program headers: one 56-byte record per segment, and the table of them.

use crate::bytes::{
    le_u32, le_u64, push_u32, push_u64, read_u16, read_u32, read_u64, u32_le_bytes, u64_le_bytes,
};
use crate::header::{hdr_phdr_num, hdr_phdr_offset, hdr_phdr_size};
use crate::ParsingError;
use vstd::prelude::*;

verus! {

/// The kind of a segment. Codes outside the list read as `NULL`.
#[derive(Clone, Copy, Debug, PartialEq, Eq, Structural)]
pub enum Phdr_type {
    NULL,
    LOAD,
    DYNAMIC,
    INTERP,
    NOTE,
    SHLIB,
    PHDR,
    TLS,
    LOOS,
    HIOS,
    LOPROC,
    HIPROC,
}

impl Phdr_type {
    /// The number that stands for this kind in a file.
    pub open spec fn spec_code(self) -> u32 {
        match self {
            Phdr_type::NULL => 0x0,
            Phdr_type::LOAD => 0x1,
            Phdr_type::DYNAMIC => 0x2,
            Phdr_type::INTERP => 0x3,
            Phdr_type::NOTE => 0x4,
            Phdr_type::SHLIB => 0x5,
            Phdr_type::PHDR => 0x6,
            Phdr_type::TLS => 0x7,
            Phdr_type::LOOS => 0x60000000,
            Phdr_type::HIOS => 0x6FFFFFFF,
            Phdr_type::LOPROC => 0x70000000,
            Phdr_type::HIPROC => 0x7FFFFFFF,
        }
    }

    /// The kind that a number read from a file stands for.
    pub open spec fn spec_from_code(code: u32) -> Phdr_type {
        if code == 0x1 {
            Phdr_type::LOAD
        } else if code == 0x2 {
            Phdr_type::DYNAMIC
        } else if code == 0x3 {
            Phdr_type::INTERP
        } else if code == 0x4 {
            Phdr_type::NOTE
        } else if code == 0x5 {
            Phdr_type::SHLIB
        } else if code == 0x6 {
            Phdr_type::PHDR
        } else if code == 0x7 {
            Phdr_type::TLS
        } else if code == 0x60000000 {
            Phdr_type::LOOS
        } else if code == 0x6FFFFFFF {
            Phdr_type::HIOS
        } else if code == 0x70000000 {
            Phdr_type::LOPROC
        } else if code == 0x7FFFFFFF {
            Phdr_type::HIPROC
        } else {
            Phdr_type::NULL
        }
    }

    pub fn code(self) -> (r: u32)
        ensures
            r == self.spec_code(),
    {
        match self {
            Phdr_type::NULL => 0x0,
            Phdr_type::LOAD => 0x1,
            Phdr_type::DYNAMIC => 0x2,
            Phdr_type::INTERP => 0x3,
            Phdr_type::NOTE => 0x4,
            Phdr_type::SHLIB => 0x5,
            Phdr_type::PHDR => 0x6,
            Phdr_type::TLS => 0x7,
            Phdr_type::LOOS => 0x60000000,
            Phdr_type::HIOS => 0x6FFFFFFF,
            Phdr_type::LOPROC => 0x70000000,
            Phdr_type::HIPROC => 0x7FFFFFFF,
        }
    }

    pub fn from_code(code: u32) -> (r: Phdr_type)
        ensures
            r == Phdr_type::spec_from_code(code),
    {
        match code {
            0x1 => Phdr_type::LOAD,
            0x2 => Phdr_type::DYNAMIC,
            0x3 => Phdr_type::INTERP,
            0x4 => Phdr_type::NOTE,
            0x5 => Phdr_type::SHLIB,
            0x6 => Phdr_type::PHDR,
            0x7 => Phdr_type::TLS,
            0x60000000 => Phdr_type::LOOS,
            0x6FFFFFFF => Phdr_type::HIOS,
            0x70000000 => Phdr_type::LOPROC,
            0x7FFFFFFF => Phdr_type::HIPROC,
            _ => Phdr_type::NULL,
        }
    }
}

/// Reading a kind's own code gives the kind back.
pub proof fn lemma_phdr_type_round_trip(t: Phdr_type)
    ensures
        Phdr_type::spec_from_code(t.spec_code()) == t,
{
}

/// One entry of the program-header table.
///
/// `offset` is a position in the file for a header taken from the table and
/// for a root segment of the block tree; for a segment nested in another it
/// is the distance from the start of the enclosing segment.
#[derive(Clone, Copy, Debug, PartialEq, Eq, Structural)]
pub struct ProgramHeader {
    pub p_type: Phdr_type,
    pub flags: u32,
    pub offset: u64,
    pub vaddr: u64,
    pub paddr: u64,
    pub filesz: u64,
    pub memsz: u64,
    pub p_align: u64,
}

/// The number of bytes that one program header takes in a file.
pub const PHDR_SIZE: usize = 0x38;

impl ProgramHeader {
    /// The header that the first 56 bytes of `b` hold.
    pub open spec fn spec_parse(b: Seq<u8>) -> ProgramHeader
        recommends
            b.len() >= 0x38,
    {
        ProgramHeader {
            p_type: Phdr_type::spec_from_code(le_u32(b.subrange(0x00, 0x04))),
            flags: le_u32(b.subrange(0x04, 0x08)),
            offset: le_u64(b.subrange(0x08, 0x10)),
            vaddr: le_u64(b.subrange(0x10, 0x18)),
            paddr: le_u64(b.subrange(0x18, 0x20)),
            filesz: le_u64(b.subrange(0x20, 0x28)),
            memsz: le_u64(b.subrange(0x28, 0x30)),
            p_align: le_u64(b.subrange(0x30, 0x38)),
        }
    }

    /// The 56 bytes that hold this header once `bias` has been added to its
    /// offset. The sum wraps round at 64 bits.
    pub open spec fn spec_to_le_offset(self, bias: usize) -> Seq<u8> {
        u32_le_bytes(self.p_type.spec_code()) + u32_le_bytes(self.flags) + u64_le_bytes(
            ((self.offset + bias) % 0x1_0000_0000_0000_0000) as u64,
        ) + u64_le_bytes(self.vaddr) + u64_le_bytes(self.paddr) + u64_le_bytes(self.filesz)
            + u64_le_bytes(self.memsz) + u64_le_bytes(self.p_align)
    }

    /// The last position of the file range that the segment covers, plus one.
    pub open spec fn spec_end(self) -> int {
        self.offset + self.filesz
    }

    /// Decodes one program header from the start of `phdr`. Fails when fewer
    /// than 56 bytes are given.
    pub fn parse(phdr: &[u8]) -> (r: Result<ProgramHeader, ParsingError>)
        ensures
            phdr@.len() >= 0x38 ==> r == Ok::<ProgramHeader, ParsingError>(
                ProgramHeader::spec_parse(phdr@),
            ),
            phdr@.len() < 0x38 ==> r == Err::<ProgramHeader, ParsingError>(
                ParsingError::ParsingError,
            ),
    {
        if phdr.len() < PHDR_SIZE {
            return Err(ParsingError::ParsingError);
        }
        Ok(
            ProgramHeader {
                p_type: parse_phdr_type(phdr),
                flags: read_u32(&phdr[0x04..0x08]),
                offset: read_u64(&phdr[0x08..0x10]),
                vaddr: read_u64(&phdr[0x10..0x18]),
                paddr: read_u64(&phdr[0x18..0x20]),
                filesz: read_u64(&phdr[0x20..0x28]),
                memsz: read_u64(&phdr[0x28..0x30]),
                p_align: read_u64(&phdr[0x30..0x38]),
            },
        )
    }

    /// Encodes the header with its offset as it stands.
    pub fn to_le(&self) -> (bin: Vec<u8>)
        ensures
            bin@ == self.spec_to_le_offset(0),
            bin@.len() == 0x38,
    {
        self.to_le_offset(0)
    }

    /// Encodes the header with `offset` added to its own offset, which turns
    /// a distance from an enclosing segment into a position in the file.
    pub fn to_le_offset(&self, offset: usize) -> (bin: Vec<u8>)
        ensures
            bin@ == self.spec_to_le_offset(offset),
            bin@.len() == 0x38,
    {
        let mut bin: Vec<u8> = Vec::new();
        push_u32(&mut bin, self.p_type.code());
        assert(bin@ =~= u32_le_bytes(self.p_type.spec_code()));
        push_u32(&mut bin, self.flags);
        push_u64(&mut bin, self.offset.wrapping_add(offset as u64));
        push_u64(&mut bin, self.vaddr);
        push_u64(&mut bin, self.paddr);
        push_u64(&mut bin, self.filesz);
        push_u64(&mut bin, self.memsz);
        push_u64(&mut bin, self.p_align);
        bin
    }
}

/// The kind of the segment whose header starts `phdr`.
fn parse_phdr_type(phdr: &[u8]) -> (r: Phdr_type)
    requires
        phdr@.len() >= 4,
    ensures
        r == Phdr_type::spec_from_code(le_u32(phdr@.subrange(0x00, 0x04))),
{
    Phdr_type::from_code(read_u32(&phdr[0x0..0x4]))
}

/// The bytes of entry `i` of the program-header table of `bin`.
pub open spec fn phdr_entry(bin: Seq<u8>, i: int) -> Seq<u8> {
    bin.subrange(
        hdr_phdr_offset(bin) + i * hdr_phdr_size(bin),
        hdr_phdr_offset(bin) + (i + 1) * hdr_phdr_size(bin),
    )
}

/// Whether `bin` holds a file header and the whole program-header table
/// that the header announces, in entries wide enough to decode.
pub open spec fn phdr_table_ok(bin: Seq<u8>) -> bool {
    bin.len() >= 0x40 && (hdr_phdr_num(bin) == 0 || (hdr_phdr_size(bin) >= 0x38
        && hdr_phdr_offset(bin) + hdr_phdr_num(bin) * hdr_phdr_size(bin) <= bin.len()))
}

/// The program headers of `bin`, in table order.
pub open spec fn spec_program_headers(bin: Seq<u8>) -> Seq<ProgramHeader> {
    Seq::new(hdr_phdr_num(bin) as nat, |i: int| ProgramHeader::spec_parse(phdr_entry(bin, i)))
}

/// Reads the program-header table of `bin`.
///
/// Fails when the image is shorter than a file header, when the table runs
/// past the end of the image, or when an entry is narrower than 56 bytes.
pub fn parse_program_header(bin: &Vec<u8>) -> (r: Result<Vec<ProgramHeader>, ParsingError>)
    ensures
        match r {
            Ok(phdrs) => phdr_table_ok(bin@) && phdrs@ == spec_program_headers(bin@),
            Err(e) => !phdr_table_ok(bin@) && e == ParsingError::ParsingError,
        },
{
    let mut phdrs: Vec<ProgramHeader> = Vec::new();
    if bin.len() < 0x40 {
        return Err(ParsingError::ParsingError);
    }
    let phdr_offset = read_u64(&bin[0x20..0x28]);
    let phdr_size = read_u16(&bin[0x36..0x38]);
    let phdr_num = read_u16(&bin[0x38..0x3A]);
    if phdr_num == 0 {
        assert(phdrs@ =~= spec_program_headers(bin@));
        return Ok(phdrs);
    }
    let len = bin.len() as u64;
    assert((phdr_size as int) * (phdr_num as int) <= 0xFFFF * 0xFFFF && (phdr_size as int) * (
    phdr_num as int) == (phdr_num as int) * (phdr_size as int)) by (nonlinear_arith)
        requires
            0 <= phdr_size <= 0xFFFF,
            0 <= phdr_num <= 0xFFFF,
    ;
    let total: u64 = (phdr_size as u64) * (phdr_num as u64);
    if phdr_size < 0x38 || phdr_offset > len || total > len - phdr_offset {
        return Err(ParsingError::ParsingError);
    }
    let mut i: u16 = 0;
    while i < phdr_num
        invariant
            i <= phdr_num,
            bin@.len() >= 0x40,
            len == bin@.len(),
            len <= usize::MAX,
            phdr_offset == hdr_phdr_offset(bin@),
            phdr_size == hdr_phdr_size(bin@),
            phdr_num == hdr_phdr_num(bin@),
            phdr_size >= 0x38,
            phdr_offset + (phdr_num as int) * (phdr_size as int) <= len,
            phdrs@.len() == i,
            forall|k: int|
                0 <= k < i ==> #[trigger] phdrs@[k] == ProgramHeader::spec_parse(
                    phdr_entry(bin@, k),
                ),
        decreases phdr_num - i,
    {
        proof {
            crate::bytes::lemma_table_entry(
                phdr_offset as int,
                phdr_size as int,
                i as int,
                phdr_num as int,
                len as int,
            );
        }
        let start = (phdr_offset + (phdr_size as u64) * (i as u64)) as usize;
        let end = start + phdr_size as usize;
        assert(bin@.subrange(start as int, end as int) =~= phdr_entry(bin@, i as int));
        match ProgramHeader::parse(&bin[start..end]) {
            Ok(phdr) => {
                phdrs.push(phdr);
            },
            Err(e) => {
                return Err(e);
            },
        }
        i += 1;
    }
    assert(phdrs@ =~= spec_program_headers(bin@));
    Ok(phdrs)
}

/// Decoding the bytes written for a header gives the header back.
pub proof fn lemma_phdr_round_trip(p: ProgramHeader)
    ensures
        p.spec_to_le_offset(0).len() == 0x38,
        ProgramHeader::spec_parse(p.spec_to_le_offset(0)) == p,
{
    let b = p.spec_to_le_offset(0);
    crate::bytes::lemma_le_u32_round_trip(p.p_type.spec_code());
    crate::bytes::lemma_le_u32_round_trip(p.flags);
    crate::bytes::lemma_le_u64_round_trip(p.offset);
    crate::bytes::lemma_le_u64_round_trip(p.vaddr);
    crate::bytes::lemma_le_u64_round_trip(p.paddr);
    crate::bytes::lemma_le_u64_round_trip(p.filesz);
    crate::bytes::lemma_le_u64_round_trip(p.memsz);
    crate::bytes::lemma_le_u64_round_trip(p.p_align);
    lemma_phdr_type_round_trip(p.p_type);
    let pre0 = Seq::<u8>::empty();
    let pre1 = u32_le_bytes(p.p_type.spec_code());
    let pre2 = pre1 + u32_le_bytes(p.flags);
    let pre3 = pre2 + u64_le_bytes(p.offset);
    let pre4 = pre3 + u64_le_bytes(p.vaddr);
    let pre5 = pre4 + u64_le_bytes(p.paddr);
    let pre6 = pre5 + u64_le_bytes(p.filesz);
    let pre7 = pre6 + u64_le_bytes(p.memsz);
    assert(b == pre7 + u64_le_bytes(p.p_align));
    assert(pre1 =~= pre0 + pre1);
    crate::bytes::lemma_starts_with_itself(b);
    crate::bytes::lemma_starts_with_step(b, pre7, u64_le_bytes(p.p_align));
    crate::bytes::lemma_starts_with_step(b, pre6, u64_le_bytes(p.memsz));
    crate::bytes::lemma_starts_with_step(b, pre5, u64_le_bytes(p.filesz));
    crate::bytes::lemma_starts_with_step(b, pre4, u64_le_bytes(p.paddr));
    crate::bytes::lemma_starts_with_step(b, pre3, u64_le_bytes(p.vaddr));
    crate::bytes::lemma_starts_with_step(b, pre2, u64_le_bytes(p.offset));
    crate::bytes::lemma_starts_with_step(b, pre1, u32_le_bytes(p.flags));
    crate::bytes::lemma_starts_with_step(b, pre0, pre1);
}

} // verus!
