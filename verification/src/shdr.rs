//! Section headers: one 64-byte record per section, the table of them, and
//! the names that the section-name string table gives them.

use crate::bytes::{
    le_u32, le_u64, push_u32, push_u64, read_u16, read_u32, read_u64, u32_le_bytes, u64_le_bytes,
};
use crate::header::{hdr_shdr_num, hdr_shdr_offset, hdr_shdr_size};
use crate::ParsingError;
use vstd::prelude::*;
use vstd::utf8::{decode_utf8, valid_utf8};

verus! {

/// The kind of a section. Codes outside the list read as `NULL`.
#[derive(Clone, Copy, Debug, PartialEq, Eq, Structural)]
pub enum Shdr_type {
    NULL,
    PROGBITS,
    SYMTAB,
    STRTAB,
    RELA,
    HASH,
    DYNAMIC,
    NOTE,
    NOBITS,
    REL,
    SHLIB,
    DYNSYM,
    INIT_ARRAY,
    FINI_ARRAY,
    PRE_INIT_ARRAY,
    GROUP,
    SYMTAB_SHNDX,
    NUM,
    LOOS,
    GNU_VERDEF,
    GNU_VERNEED,
    GNU_VERSYM,
}

impl Shdr_type {
    /// The number that stands for this kind in a file.
    pub open spec fn spec_code(self) -> u32 {
        match self {
            Shdr_type::NULL => 0x0,
            Shdr_type::PROGBITS => 0x1,
            Shdr_type::SYMTAB => 0x2,
            Shdr_type::STRTAB => 0x3,
            Shdr_type::RELA => 0x4,
            Shdr_type::HASH => 0x5,
            Shdr_type::DYNAMIC => 0x6,
            Shdr_type::NOTE => 0x7,
            Shdr_type::NOBITS => 0x8,
            Shdr_type::REL => 0x9,
            Shdr_type::SHLIB => 0x0A,
            Shdr_type::DYNSYM => 0x0B,
            Shdr_type::INIT_ARRAY => 0x0E,
            Shdr_type::FINI_ARRAY => 0x0F,
            Shdr_type::PRE_INIT_ARRAY => 0x10,
            Shdr_type::GROUP => 0x11,
            Shdr_type::SYMTAB_SHNDX => 0x12,
            Shdr_type::NUM => 0x13,
            Shdr_type::LOOS => 0x60000000,
            Shdr_type::GNU_VERDEF => 0x60000001,
            Shdr_type::GNU_VERNEED => 0x60000002,
            Shdr_type::GNU_VERSYM => 0x60000003,
        }
    }

    /// The kind that a number read from a file stands for. The three GNU
    /// kinds are never read: their codes read as `NULL`.
    pub open spec fn spec_from_code(code: u32) -> Shdr_type {
        if code == 0x1 {
            Shdr_type::PROGBITS
        } else if code == 0x2 {
            Shdr_type::SYMTAB
        } else if code == 0x3 {
            Shdr_type::STRTAB
        } else if code == 0x4 {
            Shdr_type::RELA
        } else if code == 0x5 {
            Shdr_type::HASH
        } else if code == 0x6 {
            Shdr_type::DYNAMIC
        } else if code == 0x7 {
            Shdr_type::NOTE
        } else if code == 0x8 {
            Shdr_type::NOBITS
        } else if code == 0x9 {
            Shdr_type::REL
        } else if code == 0xA {
            Shdr_type::SHLIB
        } else if code == 0xB {
            Shdr_type::DYNSYM
        } else if code == 0xE {
            Shdr_type::INIT_ARRAY
        } else if code == 0xF {
            Shdr_type::FINI_ARRAY
        } else if code == 0x10 {
            Shdr_type::PRE_INIT_ARRAY
        } else if code == 0x11 {
            Shdr_type::GROUP
        } else if code == 0x12 {
            Shdr_type::SYMTAB_SHNDX
        } else if code == 0x13 {
            Shdr_type::NUM
        } else if code == 0x60000000 {
            Shdr_type::LOOS
        } else {
            Shdr_type::NULL
        }
    }

    pub fn code(self) -> (r: u32)
        ensures
            r == self.spec_code(),
    {
        match self {
            Shdr_type::NULL => 0x0,
            Shdr_type::PROGBITS => 0x1,
            Shdr_type::SYMTAB => 0x2,
            Shdr_type::STRTAB => 0x3,
            Shdr_type::RELA => 0x4,
            Shdr_type::HASH => 0x5,
            Shdr_type::DYNAMIC => 0x6,
            Shdr_type::NOTE => 0x7,
            Shdr_type::NOBITS => 0x8,
            Shdr_type::REL => 0x9,
            Shdr_type::SHLIB => 0x0A,
            Shdr_type::DYNSYM => 0x0B,
            Shdr_type::INIT_ARRAY => 0x0E,
            Shdr_type::FINI_ARRAY => 0x0F,
            Shdr_type::PRE_INIT_ARRAY => 0x10,
            Shdr_type::GROUP => 0x11,
            Shdr_type::SYMTAB_SHNDX => 0x12,
            Shdr_type::NUM => 0x13,
            Shdr_type::LOOS => 0x60000000,
            Shdr_type::GNU_VERDEF => 0x60000001,
            Shdr_type::GNU_VERNEED => 0x60000002,
            Shdr_type::GNU_VERSYM => 0x60000003,
        }
    }

    pub fn from_code(code: u32) -> (r: Shdr_type)
        ensures
            r == Shdr_type::spec_from_code(code),
    {
        match code {
            0x1 => Shdr_type::PROGBITS,
            0x2 => Shdr_type::SYMTAB,
            0x3 => Shdr_type::STRTAB,
            0x4 => Shdr_type::RELA,
            0x5 => Shdr_type::HASH,
            0x6 => Shdr_type::DYNAMIC,
            0x7 => Shdr_type::NOTE,
            0x8 => Shdr_type::NOBITS,
            0x9 => Shdr_type::REL,
            0xA => Shdr_type::SHLIB,
            0xB => Shdr_type::DYNSYM,
            0xE => Shdr_type::INIT_ARRAY,
            0xF => Shdr_type::FINI_ARRAY,
            0x10 => Shdr_type::PRE_INIT_ARRAY,
            0x11 => Shdr_type::GROUP,
            0x12 => Shdr_type::SYMTAB_SHNDX,
            0x13 => Shdr_type::NUM,
            0x60000000 => Shdr_type::LOOS,
            _ => Shdr_type::NULL,
        }
    }
}

/// The attributes of a section. Only a value that is exactly one of the
/// listed masks is kept; any other reads as `NONE`.
#[derive(Clone, Copy, Debug, PartialEq, Eq, Structural)]
pub enum Shdr_flags {
    NONE,
    WRITE,
    ALLOC,
    EXECINSTR,
    MERGE,
    STRINGS,
    INFO_LINK,
    LINK_ORDER,
    OS_NONCONFORMING,
    GROUP,
    TLS,
    MASKOS,
    MASKPROC,
    ORDERED,
    EXCLUDE,
}

impl Shdr_flags {
    /// The number that stands for this attribute in a file.
    pub open spec fn spec_code(self) -> u64 {
        match self {
            Shdr_flags::NONE => 0x0,
            Shdr_flags::WRITE => 0x1,
            Shdr_flags::ALLOC => 0x2,
            Shdr_flags::EXECINSTR => 0x4,
            Shdr_flags::MERGE => 0x10,
            Shdr_flags::STRINGS => 0x20,
            Shdr_flags::INFO_LINK => 0x40,
            Shdr_flags::LINK_ORDER => 0x80,
            Shdr_flags::OS_NONCONFORMING => 0x100,
            Shdr_flags::GROUP => 0x200,
            Shdr_flags::TLS => 0x400,
            Shdr_flags::MASKOS => 0x0ff00000,
            Shdr_flags::MASKPROC => 0xf0000000,
            Shdr_flags::ORDERED => 0x4000000,
            Shdr_flags::EXCLUDE => 0x8000000,
        }
    }

    /// The attribute that the low 32 bits of the flags field stand for.
    pub open spec fn spec_from_code(code: u32) -> Shdr_flags {
        if code == 0x1 {
            Shdr_flags::WRITE
        } else if code == 0x2 {
            Shdr_flags::ALLOC
        } else if code == 0x4 {
            Shdr_flags::EXECINSTR
        } else if code == 0x10 {
            Shdr_flags::MERGE
        } else if code == 0x20 {
            Shdr_flags::STRINGS
        } else if code == 0x40 {
            Shdr_flags::INFO_LINK
        } else if code == 0x80 {
            Shdr_flags::LINK_ORDER
        } else if code == 0x100 {
            Shdr_flags::OS_NONCONFORMING
        } else if code == 0x200 {
            Shdr_flags::GROUP
        } else if code == 0x400 {
            Shdr_flags::TLS
        } else if code == 0x0ff00000 {
            Shdr_flags::MASKOS
        } else if code == 0xf0000000 {
            Shdr_flags::MASKPROC
        } else if code == 0x4000000 {
            Shdr_flags::ORDERED
        } else if code == 0x8000000 {
            Shdr_flags::EXCLUDE
        } else {
            Shdr_flags::NONE
        }
    }

    pub fn code(self) -> (r: u64)
        ensures
            r == self.spec_code(),
    {
        match self {
            Shdr_flags::NONE => 0x0,
            Shdr_flags::WRITE => 0x1,
            Shdr_flags::ALLOC => 0x2,
            Shdr_flags::EXECINSTR => 0x4,
            Shdr_flags::MERGE => 0x10,
            Shdr_flags::STRINGS => 0x20,
            Shdr_flags::INFO_LINK => 0x40,
            Shdr_flags::LINK_ORDER => 0x80,
            Shdr_flags::OS_NONCONFORMING => 0x100,
            Shdr_flags::GROUP => 0x200,
            Shdr_flags::TLS => 0x400,
            Shdr_flags::MASKOS => 0x0ff00000,
            Shdr_flags::MASKPROC => 0xf0000000,
            Shdr_flags::ORDERED => 0x4000000,
            Shdr_flags::EXCLUDE => 0x8000000,
        }
    }

    pub fn from_code(code: u32) -> (r: Shdr_flags)
        ensures
            r == Shdr_flags::spec_from_code(code),
    {
        match code {
            0x1 => Shdr_flags::WRITE,
            0x2 => Shdr_flags::ALLOC,
            0x4 => Shdr_flags::EXECINSTR,
            0x10 => Shdr_flags::MERGE,
            0x20 => Shdr_flags::STRINGS,
            0x40 => Shdr_flags::INFO_LINK,
            0x80 => Shdr_flags::LINK_ORDER,
            0x100 => Shdr_flags::OS_NONCONFORMING,
            0x200 => Shdr_flags::GROUP,
            0x400 => Shdr_flags::TLS,
            0x0ff00000 => Shdr_flags::MASKOS,
            0xf0000000 => Shdr_flags::MASKPROC,
            0x4000000 => Shdr_flags::ORDERED,
            0x8000000 => Shdr_flags::EXCLUDE,
            _ => Shdr_flags::NONE,
        }
    }
}

/// One entry of the section-header table, with the name that the string
/// table gives it.
///
/// `offset` is a position in the file for a header taken from the table; for
/// the header of a section in the block tree it is the distance from the
/// start of the segment that holds the section.
#[derive(Debug)]
pub struct SectionHeader {
    pub name: String,
    pub shstrndx_offset: u32,
    pub sh_type: Shdr_type,
    pub flags: Shdr_flags,
    pub addr: u64,
    pub offset: u64,
    pub size: u64,
    pub link: u32,
    pub info: u32,
    pub addralign: u64,
    pub entsize: u64,
}

/// What a section header holds, with the name as a sequence of characters.
pub struct SectionHeaderView {
    pub name: Seq<char>,
    pub shstrndx_offset: u32,
    pub sh_type: Shdr_type,
    pub flags: Shdr_flags,
    pub addr: u64,
    pub offset: u64,
    pub size: u64,
    pub link: u32,
    pub info: u32,
    pub addralign: u64,
    pub entsize: u64,
}

impl View for SectionHeader {
    type V = SectionHeaderView;

    open spec fn view(&self) -> SectionHeaderView {
        SectionHeaderView {
            name: self.name@,
            shstrndx_offset: self.shstrndx_offset,
            sh_type: self.sh_type,
            flags: self.flags,
            addr: self.addr,
            offset: self.offset,
            size: self.size,
            link: self.link,
            info: self.info,
            addralign: self.addralign,
            entsize: self.entsize,
        }
    }
}

impl Clone for SectionHeader {
    fn clone(&self) -> (r: SectionHeader)
        ensures
            r@ == self@,
    {
        self.with_offset(self.offset)
    }
}

/// The number of bytes that one section header takes in a file.
pub const SHDR_SIZE: usize = 0x40;

/// The views of a sequence of section headers, one for one.
pub open spec fn shdrs_view(shdrs: Seq<SectionHeader>) -> Seq<SectionHeaderView> {
    Seq::new(shdrs.len(), |i: int| shdrs[i]@)
}

impl SectionHeaderView {
    /// The header that the first 64 bytes of `b` hold, under the name `name`.
    pub open spec fn spec_parse(b: Seq<u8>, name: Seq<char>) -> SectionHeaderView
        recommends
            b.len() >= 0x40,
    {
        SectionHeaderView {
            name: name,
            shstrndx_offset: le_u32(b.subrange(0x00, 0x04)),
            sh_type: Shdr_type::spec_from_code(le_u32(b.subrange(0x04, 0x08))),
            flags: Shdr_flags::spec_from_code(le_u32(b.subrange(0x08, 0x10))),
            addr: le_u64(b.subrange(0x10, 0x18)),
            offset: le_u64(b.subrange(0x18, 0x20)),
            size: le_u64(b.subrange(0x20, 0x28)),
            link: le_u32(b.subrange(0x28, 0x2C)),
            info: le_u32(b.subrange(0x2C, 0x30)),
            addralign: le_u64(b.subrange(0x30, 0x38)),
            entsize: le_u64(b.subrange(0x38, 0x40)),
        }
    }

    /// The 64 bytes that hold this header once `bias` has been added to its
    /// offset. The sum wraps round at 64 bits. The name is not part of them.
    pub open spec fn spec_to_le_offset(self, bias: usize) -> Seq<u8> {
        u32_le_bytes(self.shstrndx_offset) + u32_le_bytes(self.sh_type.spec_code())
            + u64_le_bytes(self.flags.spec_code()) + u64_le_bytes(self.addr) + u64_le_bytes(
            ((self.offset + bias) % 0x1_0000_0000_0000_0000) as u64,
        ) + u64_le_bytes(self.size) + u32_le_bytes(self.link) + u32_le_bytes(self.info)
            + u64_le_bytes(self.addralign) + u64_le_bytes(self.entsize)
    }

    /// Whether the section takes no room in the file.
    pub open spec fn is_nobits(self) -> bool {
        self.sh_type == Shdr_type::NOBITS
    }
}

impl SectionHeader {
    /// Decodes one section header from the start of `shdr` and gives it the
    /// name `name`. Fails when fewer than 64 bytes are given.
    pub fn parse(shdr: &[u8], name: &str) -> (r: Result<SectionHeader, ParsingError>)
        ensures
            match r {
                Ok(h) => shdr@.len() >= 0x40 && h@ == SectionHeaderView::spec_parse(shdr@, name@),
                Err(e) => shdr@.len() < 0x40 && e == ParsingError::ParsingError,
            },
    {
        if shdr.len() < SHDR_SIZE {
            return Err(ParsingError::ParsingError);
        }
        Ok(
            SectionHeader {
                name: name.to_owned(),
                shstrndx_offset: read_u32(&shdr[0x0..0x4]),
                sh_type: parse_shdr_type(shdr),
                flags: parse_shdr_flags(shdr),
                addr: read_u64(&shdr[0x10..0x18]),
                offset: read_u64(&shdr[0x18..0x20]),
                size: read_u64(&shdr[0x20..0x28]),
                link: read_u32(&shdr[0x28..0x2C]),
                info: read_u32(&shdr[0x2C..0x30]),
                addralign: read_u64(&shdr[0x30..0x38]),
                entsize: read_u64(&shdr[0x38..0x40]),
            },
        )
    }

    /// A copy of the header with `offset` in place of its offset.
    pub fn with_offset(&self, offset: u64) -> (r: SectionHeader)
        ensures
            r@ == (SectionHeaderView { offset: offset, ..self@ }),
    {
        SectionHeader {
            name: self.name.clone(),
            shstrndx_offset: self.shstrndx_offset,
            sh_type: self.sh_type,
            flags: self.flags,
            addr: self.addr,
            offset: offset,
            size: self.size,
            link: self.link,
            info: self.info,
            addralign: self.addralign,
            entsize: self.entsize,
        }
    }

    /// Encodes the header with its offset as it stands.
    pub fn to_le(&self) -> (bin: Vec<u8>)
        ensures
            bin@ == self@.spec_to_le_offset(0),
            bin@.len() == 0x40,
    {
        self.to_le_offset(0)
    }

    /// Encodes the header with `offset` added to its own offset.
    pub fn to_le_offset(&self, offset: usize) -> (bin: Vec<u8>)
        ensures
            bin@ == self@.spec_to_le_offset(offset),
            bin@.len() == 0x40,
    {
        let mut bin: Vec<u8> = Vec::new();
        push_u32(&mut bin, self.shstrndx_offset);
        assert(bin@ =~= u32_le_bytes(self.shstrndx_offset));
        push_u32(&mut bin, self.sh_type.code());
        push_u64(&mut bin, self.flags.code());
        push_u64(&mut bin, self.addr);
        push_u64(&mut bin, self.offset.wrapping_add(offset as u64));
        push_u64(&mut bin, self.size);
        push_u32(&mut bin, self.link);
        push_u32(&mut bin, self.info);
        push_u64(&mut bin, self.addralign);
        push_u64(&mut bin, self.entsize);
        bin
    }
}

/// The kind of the section whose header starts `shdr`.
fn parse_shdr_type(shdr: &[u8]) -> (r: Shdr_type)
    requires
        shdr@.len() >= 0x08,
    ensures
        r == Shdr_type::spec_from_code(le_u32(shdr@.subrange(0x04, 0x08))),
{
    Shdr_type::from_code(read_u32(&shdr[0x04..0x08]))
}

/// The attribute of the section whose header starts `shdr`.
fn parse_shdr_flags(shdr: &[u8]) -> (r: Shdr_flags)
    requires
        shdr@.len() >= 0x10,
    ensures
        r == Shdr_flags::spec_from_code(le_u32(shdr@.subrange(0x08, 0x10))),
{
    Shdr_flags::from_code(read_u32(&shdr[0x08..0x10]))
}

/// The position of the first zero byte of `s`, or the length of `s` where
/// it holds none.
pub open spec fn first_nul(s: Seq<u8>) -> int
    decreases s.len(),
{
    if s.len() == 0 || s[0] == 0 {
        0
    } else {
        1 + first_nul(s.skip(1))
    }
}

/// `s` up to its first zero byte, the byte left out.
pub open spec fn nul_trimmed(s: Seq<u8>) -> Seq<u8> {
    s.subrange(0, first_nul(s))
}

/// A position with no zero byte before it, and a zero byte or the end of
/// the sequence at it, is the position of the first zero byte.
pub proof fn lemma_first_nul(s: Seq<u8>, n: int)
    requires
        0 <= n <= s.len(),
        forall|k: int| 0 <= k < n ==> s[k] != 0,
        n == s.len() || s[n] == 0,
    ensures
        first_nul(s) == n,
    decreases n,
{
    if n > 0 {
        let t = s.skip(1);
        assert forall|k: int| 0 <= k < n - 1 implies t[k] != 0 by {
            assert(t[k] == s[k + 1]);
        }
        lemma_first_nul(t, n - 1);
    }
}

/// `core::str::from_utf8`: the bytes as a string slice, where they are
/// well-formed UTF-8, and nothing where they are not. The characters of the
/// slice are those that the bytes encode.
#[verifier::external_body]
fn utf8_str(bytes: &[u8]) -> (r: Option<&str>)
    ensures
        r is Some <==> valid_utf8(bytes@),
        r matches Some(s) ==> s@ == decode_utf8(bytes@),
{
    match core::str::from_utf8(bytes) {
        Ok(s) => Some(s),
        Err(_) => None,
    }
}

/// The string that `utf8_src` holds up to its first zero byte. Fails when
/// those bytes are not well-formed UTF-8.
pub fn str_from_u8_nul_utf8(utf8_src: &[u8]) -> (r: Result<&str, ParsingError>)
    ensures
        match r {
            Ok(s) => valid_utf8(nul_trimmed(utf8_src@)) && s@ == decode_utf8(
                nul_trimmed(utf8_src@),
            ),
            Err(e) => !valid_utf8(nul_trimmed(utf8_src@)) && e == ParsingError::ParsingError,
        },
{
    let mut nul_range_end: usize = 0;
    while nul_range_end < utf8_src.len() && utf8_src[nul_range_end] != 0
        invariant
            nul_range_end <= utf8_src@.len(),
            forall|k: int| 0 <= k < nul_range_end ==> utf8_src@[k] != 0,
        decreases utf8_src@.len() - nul_range_end,
    {
        nul_range_end += 1;
    }
    proof {
        lemma_first_nul(utf8_src@, nul_range_end as int);
    }
    match utf8_str(&utf8_src[0..nul_range_end]) {
        Some(s) => Ok(s),
        None => Err(ParsingError::ParsingError),
    }
}

/// The bytes of entry `i` of the section-header table of `bin`.
pub open spec fn shdr_entry(bin: Seq<u8>, i: int) -> Seq<u8> {
    bin.subrange(
        hdr_shdr_offset(bin) + i * hdr_shdr_size(bin),
        hdr_shdr_offset(bin) + (i + 1) * hdr_shdr_size(bin),
    )
}

/// Whether `bin` holds a file header and the whole section-header table
/// that the header announces, in entries wide enough to decode.
pub open spec fn shdr_table_ok(bin: Seq<u8>) -> bool {
    bin.len() >= 0x40 && (hdr_shdr_num(bin) == 0 || (hdr_shdr_size(bin) >= 0x40
        && hdr_shdr_offset(bin) + hdr_shdr_num(bin) * hdr_shdr_size(bin) <= bin.len()))
}

/// Whether section `shstrndx` can name the sections: it is not section 0
/// and it is in the table.
pub open spec fn has_names(bin: Seq<u8>, shstrndx: u16) -> bool {
    shstrndx != 0 && shstrndx < hdr_shdr_num(bin)
}

/// The file offset of the string table that names the sections.
pub open spec fn strtab_offset(bin: Seq<u8>, shstrndx: u16) -> u64 {
    le_u64(shdr_entry(bin, shstrndx as int).subrange(0x18, 0x20))
}

/// The size of the string table that names the sections.
pub open spec fn strtab_size(bin: Seq<u8>, shstrndx: u16) -> u64 {
    le_u64(shdr_entry(bin, shstrndx as int).subrange(0x20, 0x28))
}

/// Where in the string table the name of section `i` starts.
pub open spec fn name_index(bin: Seq<u8>, i: int) -> u32 {
    le_u32(shdr_entry(bin, i).subrange(0x00, 0x04))
}

/// The bytes of the name of section `i`: the string table from the
/// section's name index up to the first zero byte.
pub open spec fn name_bytes(bin: Seq<u8>, shstrndx: u16, i: int) -> Seq<u8> {
    nul_trimmed(
        bin.subrange(
            strtab_offset(bin, shstrndx) + name_index(bin, i),
            strtab_offset(bin, shstrndx) + strtab_size(bin, shstrndx),
        ),
    )
}

/// Whether the name of section `i` can be read: its index lies in the
/// string table and its bytes are well-formed UTF-8.
pub open spec fn name_ok(bin: Seq<u8>, shstrndx: u16, i: int) -> bool {
    name_index(bin, i) <= strtab_size(bin, shstrndx) && valid_utf8(name_bytes(bin, shstrndx, i))
}

/// Whether every section can be given its name: either no section names
/// them, or the string table lies in the file and holds each name.
pub open spec fn names_ok(bin: Seq<u8>, shstrndx: u16) -> bool {
    has_names(bin, shstrndx) ==> strtab_offset(bin, shstrndx) + strtab_size(bin, shstrndx)
        <= bin.len() && forall|i: int|
        0 <= i < hdr_shdr_num(bin) ==> #[trigger] name_ok(bin, shstrndx, i)
}

/// The name of section `i`: empty where no section names the sections.
pub open spec fn section_name(bin: Seq<u8>, shstrndx: u16, i: int) -> Seq<char> {
    if has_names(bin, shstrndx) {
        decode_utf8(name_bytes(bin, shstrndx, i))
    } else {
        Seq::empty()
    }
}

/// Section header `i` of the table of `bin`, named through `shstrndx`.
pub open spec fn section_header_at(bin: Seq<u8>, shstrndx: u16, i: int) -> SectionHeaderView {
    SectionHeaderView::spec_parse(shdr_entry(bin, i), section_name(bin, shstrndx, i))
}

/// The section headers of `bin`, in table order.
pub open spec fn spec_section_headers(bin: Seq<u8>, shstrndx: u16) -> Seq<SectionHeaderView> {
    Seq::new(hdr_shdr_num(bin) as nat, |i: int| section_header_at(bin, shstrndx, i))
}

/// Reads the section-header table of `bin` and names each section through
/// the string table that section `shstrndx` describes.
///
/// Where `shstrndx` is 0 or not in the table, every name is empty. Fails
/// when the image is shorter than a file header, when the table or the
/// string table runs past the end of the image, when an entry is narrower
/// than 64 bytes, or when a name cannot be read.
pub fn parse_section_header(bin: &Vec<u8>, shstrndx: u16) -> (r: Result<
    Vec<SectionHeader>,
    ParsingError,
>)
    ensures
        match r {
            Ok(shdrs) => shdr_table_ok(bin@) && names_ok(bin@, shstrndx) && shdrs_view(shdrs@)
                == spec_section_headers(bin@, shstrndx),
            Err(e) => !(shdr_table_ok(bin@) && names_ok(bin@, shstrndx)) && e
                == ParsingError::ParsingError,
        },
{
    let mut shdrs: Vec<SectionHeader> = Vec::new();
    if bin.len() < 0x40 {
        return Err(ParsingError::ParsingError);
    }
    let shdr_offset = read_u64(&bin[0x28..0x30]);
    let shdr_size = read_u16(&bin[0x3A..0x3C]);
    let shdr_num = read_u16(&bin[0x3C..0x3E]);
    if shdr_num == 0 {
        assert(shdrs_view(shdrs@) =~= spec_section_headers(bin@, shstrndx));
        return Ok(shdrs);
    }
    let len = bin.len() as u64;
    assert((shdr_size as int) * (shdr_num as int) <= 0xFFFF * 0xFFFF && (shdr_size as int) * (
    shdr_num as int) == (shdr_num as int) * (shdr_size as int)) by (nonlinear_arith)
        requires
            0 <= shdr_size <= 0xFFFF,
            0 <= shdr_num <= 0xFFFF,
    ;
    let total: u64 = (shdr_size as u64) * (shdr_num as u64);
    if shdr_size < 0x40 || shdr_offset > len || total > len - shdr_offset {
        return Err(ParsingError::ParsingError);
    }
    let named = shstrndx != 0 && shstrndx < shdr_num;
    let mut str_off: u64 = 0;
    let mut str_size: u64 = 0;
    if named {
        proof {
            crate::bytes::lemma_table_entry(
                shdr_offset as int,
                shdr_size as int,
                shstrndx as int,
                shdr_num as int,
                len as int,
            );
        }
        let e = (shdr_offset + (shdr_size as u64) * (shstrndx as u64)) as usize;
        str_off = read_u64(&bin[e + 0x18..e + 0x20]);
        str_size = read_u64(&bin[e + 0x20..e + 0x28]);
        assert(bin@.subrange(e + 0x18, e + 0x20) =~= shdr_entry(bin@, shstrndx as int).subrange(
            0x18,
            0x20,
        ));
        assert(bin@.subrange(e + 0x20, e + 0x28) =~= shdr_entry(bin@, shstrndx as int).subrange(
            0x20,
            0x28,
        ));
        if str_off > len || str_size > len - str_off {
            return Err(ParsingError::ParsingError);
        }
    }
    let mut i: u16 = 0;
    while i < shdr_num
        invariant
            i <= shdr_num,
            bin@.len() >= 0x40,
            len == bin@.len(),
            len <= usize::MAX,
            shdr_offset == hdr_shdr_offset(bin@),
            shdr_size == hdr_shdr_size(bin@),
            shdr_num == hdr_shdr_num(bin@),
            shdr_size >= 0x40,
            shdr_offset + (shdr_num as int) * (shdr_size as int) <= len,
            named == has_names(bin@, shstrndx),
            named ==> str_off == strtab_offset(bin@, shstrndx) && str_size == strtab_size(
                bin@,
                shstrndx,
            ) && str_off + str_size <= len,
            shdrs@.len() == i,
            forall|k: int| 0 <= k < i ==> (#[trigger] shdrs@[k])@ == section_header_at(bin@, shstrndx, k),
            named ==> forall|k: int| 0 <= k < i ==> #[trigger] name_ok(bin@, shstrndx, k),
        decreases shdr_num - i,
    {
        proof {
            crate::bytes::lemma_table_entry(
                shdr_offset as int,
                shdr_size as int,
                i as int,
                shdr_num as int,
                len as int,
            );
        }
        let start = (shdr_offset + (shdr_size as u64) * (i as u64)) as usize;
        let end = start + shdr_size as usize;
        assert(bin@.subrange(start as int, end as int) =~= shdr_entry(bin@, i as int));
        let mut name: &str = "";
        proof {
            reveal_strlit("");
        }
        assert(name@ =~= Seq::<char>::empty());
        if named {
            let idx = read_u32(&bin[start..start + 4]) as u64;
            assert(bin@.subrange(start as int, start + 4) =~= shdr_entry(bin@, i as int).subrange(
                0x00,
                0x04,
            ));
            if idx > str_size {
                assert(!name_ok(bin@, shstrndx, i as int));
                return Err(ParsingError::ParsingError);
            }
            let name_start = (str_off + idx) as usize;
            let name_end = (str_off + str_size) as usize;
            match str_from_u8_nul_utf8(&bin[name_start..name_end]) {
                Ok(s) => {
                    name = s;
                },
                Err(e) => {
                    assert(!name_ok(bin@, shstrndx, i as int));
                    return Err(e);
                },
            }
        }
        match SectionHeader::parse(&bin[start..end], name) {
            Ok(section) => {
                shdrs.push(section);
            },
            Err(e) => {
                return Err(e);
            },
        }
        i += 1;
    }
    assert(shdrs_view(shdrs@) =~= spec_section_headers(bin@, shstrndx));
    Ok(shdrs)
}

/// A kind and an attribute that were read from a file come back from their
/// own codes.
pub proof fn lemma_read_codes_round_trip(kind: u32, flags: u32)
    ensures
        Shdr_type::spec_from_code(Shdr_type::spec_from_code(kind).spec_code())
            == Shdr_type::spec_from_code(kind),
        Shdr_flags::spec_from_code(
            (Shdr_flags::spec_from_code(flags).spec_code() % 0x1_0000_0000) as u32,
        ) == Shdr_flags::spec_from_code(flags),
{
}

/// Decoding the bytes written for a section header gives the header back,
/// but for its kind and attribute, which come back as the listed value
/// that their code stands for.
pub proof fn lemma_section_header_round_trip(h: SectionHeaderView)
    ensures
        h.spec_to_le_offset(0).len() == 0x40,
        SectionHeaderView::spec_parse(h.spec_to_le_offset(0), h.name) == (SectionHeaderView {
            flags: Shdr_flags::spec_from_code((h.flags.spec_code() % 0x1_0000_0000) as u32),
            sh_type: Shdr_type::spec_from_code(h.sh_type.spec_code()),
            ..h
        }),
{
    let b = h.spec_to_le_offset(0);
    crate::bytes::lemma_le_u32_round_trip(h.shstrndx_offset);
    crate::bytes::lemma_le_u32_round_trip(h.sh_type.spec_code());
    crate::bytes::lemma_le_u64_round_trip(h.flags.spec_code());
    crate::bytes::lemma_le_u64_round_trip(h.addr);
    crate::bytes::lemma_le_u64_round_trip(h.offset);
    crate::bytes::lemma_le_u64_round_trip(h.size);
    crate::bytes::lemma_le_u32_round_trip(h.link);
    crate::bytes::lemma_le_u32_round_trip(h.info);
    crate::bytes::lemma_le_u64_round_trip(h.addralign);
    crate::bytes::lemma_le_u64_round_trip(h.entsize);
    crate::bytes::lemma_le_u64_low_half(h.flags.spec_code());
    let pre0 = Seq::<u8>::empty();
    let pre1 = u32_le_bytes(h.shstrndx_offset);
    let pre2 = pre1 + u32_le_bytes(h.sh_type.spec_code());
    let pre3 = pre2 + u64_le_bytes(h.flags.spec_code());
    let pre4 = pre3 + u64_le_bytes(h.addr);
    let pre5 = pre4 + u64_le_bytes(h.offset);
    let pre6 = pre5 + u64_le_bytes(h.size);
    let pre7 = pre6 + u32_le_bytes(h.link);
    let pre8 = pre7 + u32_le_bytes(h.info);
    let pre9 = pre8 + u64_le_bytes(h.addralign);
    assert(b == pre9 + u64_le_bytes(h.entsize));
    assert(pre1 =~= pre0 + pre1);
    crate::bytes::lemma_starts_with_itself(b);
    crate::bytes::lemma_starts_with_step(b, pre9, u64_le_bytes(h.entsize));
    crate::bytes::lemma_starts_with_step(b, pre8, u64_le_bytes(h.addralign));
    crate::bytes::lemma_starts_with_step(b, pre7, u32_le_bytes(h.info));
    crate::bytes::lemma_starts_with_step(b, pre6, u32_le_bytes(h.link));
    crate::bytes::lemma_starts_with_step(b, pre5, u64_le_bytes(h.size));
    crate::bytes::lemma_starts_with_step(b, pre4, u64_le_bytes(h.offset));
    crate::bytes::lemma_starts_with_step(b, pre3, u64_le_bytes(h.addr));
    crate::bytes::lemma_starts_with_step(b, pre2, u64_le_bytes(h.flags.spec_code()));
    crate::bytes::lemma_starts_with_step(b, pre1, u32_le_bytes(h.sh_type.spec_code()));
    crate::bytes::lemma_starts_with_step(b, pre0, pre1);
    assert(crate::bytes::le_u32(b.subrange(0x08, 0x10)) == crate::bytes::le_u32(
        u64_le_bytes(h.flags.spec_code()),
    ));
}

} // verus!
