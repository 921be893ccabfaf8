//! The 64-byte file header that every ELF image starts with.

use crate::bytes::{
    le_u16, le_u32, le_u64, push_u16, push_u32, push_u64, read_u16, read_u32, read_u64,
    u16_le_bytes, u32_le_bytes, u64_le_bytes,
};
use crate::ParsingError;
use vstd::prelude::*;

verus! {

/// The kind of object file. Codes outside the list read as `NONE`.
#[derive(Clone, Copy, Debug, PartialEq, Eq, Structural)]
pub enum Elf_type {
    NONE,
    REL,
    EXEC,
    DYN,
    CORE,
    LOOS,
    HIOS,
    LOPROC,
    HIPROC,
}

impl Elf_type {
    /// The number that stands for this value in a file.
    pub open spec fn spec_code(self) -> u16 {
        match self {
            Elf_type::NONE => 0x0,
            Elf_type::REL => 0x1,
            Elf_type::EXEC => 0x2,
            Elf_type::DYN => 0x3,
            Elf_type::CORE => 0x4,
            Elf_type::LOOS => 0xfe00,
            Elf_type::HIOS => 0xfeff,
            Elf_type::LOPROC => 0xff00,
            Elf_type::HIPROC => 0xffff,
        }
    }

    /// The value that a number read from a file stands for; `NONE` for a
    /// number outside the list.
    pub open spec fn spec_from_code(code: u16) -> Elf_type {
        if code == 0x1 {
            Elf_type::REL
        } else if code == 0x2 {
            Elf_type::EXEC
        } else if code == 0x3 {
            Elf_type::DYN
        } else if code == 0x4 {
            Elf_type::CORE
        } else if code == 0xfe00 {
            Elf_type::LOOS
        } else if code == 0xfeff {
            Elf_type::HIOS
        } else if code == 0xff00 {
            Elf_type::LOPROC
        } else if code == 0xffff {
            Elf_type::HIPROC
        } else {
            Elf_type::NONE
        }
    }

    pub fn code(self) -> (r: u16)
        ensures
            r == self.spec_code(),
    {
        match self {
            Elf_type::NONE => 0x0,
            Elf_type::REL => 0x1,
            Elf_type::EXEC => 0x2,
            Elf_type::DYN => 0x3,
            Elf_type::CORE => 0x4,
            Elf_type::LOOS => 0xfe00,
            Elf_type::HIOS => 0xfeff,
            Elf_type::LOPROC => 0xff00,
            Elf_type::HIPROC => 0xffff,
        }
    }

    pub fn from_code(code: u16) -> (r: Elf_type)
        ensures
            r == Elf_type::spec_from_code(code),
    {
        match code {
            0x1 => Elf_type::REL,
            0x2 => Elf_type::EXEC,
            0x3 => Elf_type::DYN,
            0x4 => Elf_type::CORE,
            0xfe00 => Elf_type::LOOS,
            0xfeff => Elf_type::HIOS,
            0xff00 => Elf_type::LOPROC,
            0xffff => Elf_type::HIPROC,
            _ => Elf_type::NONE,
        }
    }
}

/// The word size of the file. Only `ELF64` files are read.
#[derive(Clone, Copy, Debug, PartialEq, Eq, Structural)]
pub enum Elf_class {
    ELF32,
    ELF64,
}

impl Elf_class {
    /// The number that stands for this value in a file.
    pub open spec fn spec_code(self) -> u8 {
        match self {
            Elf_class::ELF32 => 1,
            Elf_class::ELF64 => 2,
        }
    }

    /// The value that a number read from a file stands for; `ELF64` for a
    /// number outside the list.
    pub open spec fn spec_from_code(code: u8) -> Elf_class {
        if code == 1 {
            Elf_class::ELF32
        } else {
            Elf_class::ELF64
        }
    }

    pub fn code(self) -> (r: u8)
        ensures
            r == self.spec_code(),
    {
        match self {
            Elf_class::ELF32 => 1,
            Elf_class::ELF64 => 2,
        }
    }

    pub fn from_code(code: u8) -> (r: Elf_class)
        ensures
            r == Elf_class::spec_from_code(code),
    {
        match code {
            1 => Elf_class::ELF32,
            _ => Elf_class::ELF64,
        }
    }
}

/// The byte order of the file. Only `LittleEndian` files are read.
#[derive(Clone, Copy, Debug, PartialEq, Eq, Structural)]
pub enum Elf_endiannes {
    LittleEndian,
    BigEndian,
}

impl Elf_endiannes {
    /// The number that stands for this value in a file.
    pub open spec fn spec_code(self) -> u8 {
        match self {
            Elf_endiannes::LittleEndian => 1,
            Elf_endiannes::BigEndian => 2,
        }
    }

    /// The value that a number read from a file stands for; `BigEndian` for a
    /// number outside the list.
    pub open spec fn spec_from_code(code: u8) -> Elf_endiannes {
        if code == 1 {
            Elf_endiannes::LittleEndian
        } else {
            Elf_endiannes::BigEndian
        }
    }

    pub fn code(self) -> (r: u8)
        ensures
            r == self.spec_code(),
    {
        match self {
            Elf_endiannes::LittleEndian => 1,
            Elf_endiannes::BigEndian => 2,
        }
    }

    pub fn from_code(code: u8) -> (r: Elf_endiannes)
        ensures
            r == Elf_endiannes::spec_from_code(code),
    {
        match code {
            1 => Elf_endiannes::LittleEndian,
            _ => Elf_endiannes::BigEndian,
        }
    }
}

/// The instruction set. Codes outside the list read as `NONE`.
#[derive(Clone, Copy, Debug, PartialEq, Eq, Structural)]
pub enum Elf_arch {
    NONE,
    SPARC,
    X86,
    MIPS,
    POWERPC,
    S390,
    ARM,
    SUPERH,
    IA64,
    AMD64,
    AARCH64,
    RISCV,
}

impl Elf_arch {
    /// The number that stands for this value in a file.
    pub open spec fn spec_code(self) -> u16 {
        match self {
            Elf_arch::NONE => 0x0,
            Elf_arch::SPARC => 0x2,
            Elf_arch::X86 => 0x3,
            Elf_arch::MIPS => 0x8,
            Elf_arch::POWERPC => 0x14,
            Elf_arch::S390 => 0x16,
            Elf_arch::ARM => 0x28,
            Elf_arch::SUPERH => 0x2A,
            Elf_arch::IA64 => 0x32,
            Elf_arch::AMD64 => 0x3E,
            Elf_arch::AARCH64 => 0xB7,
            Elf_arch::RISCV => 0xF3,
        }
    }

    /// The value that a number read from a file stands for; `NONE` for a
    /// number outside the list.
    pub open spec fn spec_from_code(code: u16) -> Elf_arch {
        if code == 0x2 {
            Elf_arch::SPARC
        } else if code == 0x3 {
            Elf_arch::X86
        } else if code == 0x8 {
            Elf_arch::MIPS
        } else if code == 0x14 {
            Elf_arch::POWERPC
        } else if code == 0x16 {
            Elf_arch::S390
        } else if code == 0x28 {
            Elf_arch::ARM
        } else if code == 0x2A {
            Elf_arch::SUPERH
        } else if code == 0x32 {
            Elf_arch::IA64
        } else if code == 0x3E {
            Elf_arch::AMD64
        } else if code == 0xB7 {
            Elf_arch::AARCH64
        } else if code == 0xF3 {
            Elf_arch::RISCV
        } else {
            Elf_arch::NONE
        }
    }

    pub fn code(self) -> (r: u16)
        ensures
            r == self.spec_code(),
    {
        match self {
            Elf_arch::NONE => 0x0,
            Elf_arch::SPARC => 0x2,
            Elf_arch::X86 => 0x3,
            Elf_arch::MIPS => 0x8,
            Elf_arch::POWERPC => 0x14,
            Elf_arch::S390 => 0x16,
            Elf_arch::ARM => 0x28,
            Elf_arch::SUPERH => 0x2A,
            Elf_arch::IA64 => 0x32,
            Elf_arch::AMD64 => 0x3E,
            Elf_arch::AARCH64 => 0xB7,
            Elf_arch::RISCV => 0xF3,
        }
    }

    pub fn from_code(code: u16) -> (r: Elf_arch)
        ensures
            r == Elf_arch::spec_from_code(code),
    {
        match code {
            0x2 => Elf_arch::SPARC,
            0x3 => Elf_arch::X86,
            0x8 => Elf_arch::MIPS,
            0x14 => Elf_arch::POWERPC,
            0x16 => Elf_arch::S390,
            0x28 => Elf_arch::ARM,
            0x2A => Elf_arch::SUPERH,
            0x32 => Elf_arch::IA64,
            0x3E => Elf_arch::AMD64,
            0xB7 => Elf_arch::AARCH64,
            0xF3 => Elf_arch::RISCV,
            _ => Elf_arch::NONE,
        }
    }
}

/// The operating-system ABI. Codes outside the list read as `NONE`.
#[derive(Clone, Copy, Debug, PartialEq, Eq, Structural)]
pub enum Elf_abi {
    NONE,
    HPUX,
    NetBSD,
    Linux,
    GNUHurd,
    Solaris,
    AIX,
    IRIX,
    FreeBSD,
    Tru64,
    NovellModesto,
    OpenBSD,
    OpenVMS,
    NonStopKernel,
    AROS,
    FenixOS,
    CloudABI,
    OpenVOS,
}

impl Elf_abi {
    /// The number that stands for this value in a file.
    pub open spec fn spec_code(self) -> u8 {
        match self {
            Elf_abi::NONE => 0x0,
            Elf_abi::HPUX => 0x1,
            Elf_abi::NetBSD => 0x2,
            Elf_abi::Linux => 0x3,
            Elf_abi::GNUHurd => 0x4,
            Elf_abi::Solaris => 0x6,
            Elf_abi::AIX => 0x7,
            Elf_abi::IRIX => 0x8,
            Elf_abi::FreeBSD => 0x9,
            Elf_abi::Tru64 => 0xA,
            Elf_abi::NovellModesto => 0xB,
            Elf_abi::OpenBSD => 0xC,
            Elf_abi::OpenVMS => 0xD,
            Elf_abi::NonStopKernel => 0xE,
            Elf_abi::AROS => 0xF,
            Elf_abi::FenixOS => 0x10,
            Elf_abi::CloudABI => 0x11,
            Elf_abi::OpenVOS => 0x12,
        }
    }

    /// The value that a number read from a file stands for; `NONE` for a
    /// number outside the list.
    pub open spec fn spec_from_code(code: u8) -> Elf_abi {
        if code == 0x1 {
            Elf_abi::HPUX
        } else if code == 0x2 {
            Elf_abi::NetBSD
        } else if code == 0x3 {
            Elf_abi::Linux
        } else if code == 0x4 {
            Elf_abi::GNUHurd
        } else if code == 0x6 {
            Elf_abi::Solaris
        } else if code == 0x7 {
            Elf_abi::AIX
        } else if code == 0x8 {
            Elf_abi::IRIX
        } else if code == 0x9 {
            Elf_abi::FreeBSD
        } else if code == 0xA {
            Elf_abi::Tru64
        } else if code == 0xB {
            Elf_abi::NovellModesto
        } else if code == 0xC {
            Elf_abi::OpenBSD
        } else if code == 0xD {
            Elf_abi::OpenVMS
        } else if code == 0xE {
            Elf_abi::NonStopKernel
        } else if code == 0xF {
            Elf_abi::AROS
        } else if code == 0x10 {
            Elf_abi::FenixOS
        } else if code == 0x11 {
            Elf_abi::CloudABI
        } else if code == 0x12 {
            Elf_abi::OpenVOS
        } else {
            Elf_abi::NONE
        }
    }

    pub fn code(self) -> (r: u8)
        ensures
            r == self.spec_code(),
    {
        match self {
            Elf_abi::NONE => 0x0,
            Elf_abi::HPUX => 0x1,
            Elf_abi::NetBSD => 0x2,
            Elf_abi::Linux => 0x3,
            Elf_abi::GNUHurd => 0x4,
            Elf_abi::Solaris => 0x6,
            Elf_abi::AIX => 0x7,
            Elf_abi::IRIX => 0x8,
            Elf_abi::FreeBSD => 0x9,
            Elf_abi::Tru64 => 0xA,
            Elf_abi::NovellModesto => 0xB,
            Elf_abi::OpenBSD => 0xC,
            Elf_abi::OpenVMS => 0xD,
            Elf_abi::NonStopKernel => 0xE,
            Elf_abi::AROS => 0xF,
            Elf_abi::FenixOS => 0x10,
            Elf_abi::CloudABI => 0x11,
            Elf_abi::OpenVOS => 0x12,
        }
    }

    pub fn from_code(code: u8) -> (r: Elf_abi)
        ensures
            r == Elf_abi::spec_from_code(code),
    {
        match code {
            0x1 => Elf_abi::HPUX,
            0x2 => Elf_abi::NetBSD,
            0x3 => Elf_abi::Linux,
            0x4 => Elf_abi::GNUHurd,
            0x6 => Elf_abi::Solaris,
            0x7 => Elf_abi::AIX,
            0x8 => Elf_abi::IRIX,
            0x9 => Elf_abi::FreeBSD,
            0xA => Elf_abi::Tru64,
            0xB => Elf_abi::NovellModesto,
            0xC => Elf_abi::OpenBSD,
            0xD => Elf_abi::OpenVMS,
            0xE => Elf_abi::NonStopKernel,
            0xF => Elf_abi::AROS,
            0x10 => Elf_abi::FenixOS,
            0x11 => Elf_abi::CloudABI,
            0x12 => Elf_abi::OpenVOS,
            _ => Elf_abi::NONE,
        }
    }
}

/// The number of bytes that the file header takes.
pub const EHDR_SIZE: usize = 0x40;

/// The file header.
#[derive(Clone, Copy, Debug)]
pub struct Elf_header {
    pub e_ident: [u8; 4],
    pub e_class: Elf_class,
    pub e_endianness: Elf_endiannes,
    pub ei_version: u8,
    pub e_abi: Elf_abi,
    pub e_abi_version: u8,
    pub e_padding: [u8; 7],
    pub e_type: Elf_type,
    pub e_arch: Elf_arch,
    pub e_version: u32,
    pub e_entry: u64,
    pub e_flags: u32,
    pub size: u16,
    pub phdr_offset: u64,
    pub phdr_size: u16,
    pub phdr_num: u16,
    pub shdr_offset: u64,
    pub shdr_size: u16,
    pub shdr_num: u16,
    pub shstrndx: u16,
}

/// What the file header holds, with its two byte arrays as sequences.
pub struct Elf_headerView {
    pub e_ident: Seq<u8>,
    pub e_class: Elf_class,
    pub e_endianness: Elf_endiannes,
    pub ei_version: u8,
    pub e_abi: Elf_abi,
    pub e_abi_version: u8,
    pub e_padding: Seq<u8>,
    pub e_type: Elf_type,
    pub e_arch: Elf_arch,
    pub e_version: u32,
    pub e_entry: u64,
    pub e_flags: u32,
    pub size: u16,
    pub phdr_offset: u64,
    pub phdr_size: u16,
    pub phdr_num: u16,
    pub shdr_offset: u64,
    pub shdr_size: u16,
    pub shdr_num: u16,
    pub shstrndx: u16,
}

impl View for Elf_header {
    type V = Elf_headerView;

    open spec fn view(&self) -> Elf_headerView {
        Elf_headerView {
            e_ident: self.e_ident@,
            e_class: self.e_class,
            e_endianness: self.e_endianness,
            ei_version: self.ei_version,
            e_abi: self.e_abi,
            e_abi_version: self.e_abi_version,
            e_padding: self.e_padding@,
            e_type: self.e_type,
            e_arch: self.e_arch,
            e_version: self.e_version,
            e_entry: self.e_entry,
            e_flags: self.e_flags,
            size: self.size,
            phdr_offset: self.phdr_offset,
            phdr_size: self.phdr_size,
            phdr_num: self.phdr_num,
            shdr_offset: self.shdr_offset,
            shdr_size: self.shdr_size,
            shdr_num: self.shdr_num,
            shstrndx: self.shstrndx,
        }
    }
}

/// The four bytes that every ELF image starts with.
pub open spec fn elf_magic() -> Seq<u8> {
    seq![0x7Fu8, 0x45u8, 0x4Cu8, 0x46u8]
}

/// Whether `bin` starts with the ELF magic number.
pub open spec fn spec_is_elf(bin: Seq<u8>) -> bool {
    bin.len() >= 4 && bin[0] == 0x7F && bin[1] == 0x45 && bin[2] == 0x4C && bin[3] == 0x46
}

/// The file offset of the program-header table, as the header of `bin` gives it.
pub open spec fn hdr_phdr_offset(bin: Seq<u8>) -> u64 {
    le_u64(bin.subrange(0x20, 0x28))
}

/// The file offset of the section-header table, as the header of `bin` gives it.
pub open spec fn hdr_shdr_offset(bin: Seq<u8>) -> u64 {
    le_u64(bin.subrange(0x28, 0x30))
}

/// The size of one program header, as the header of `bin` gives it.
pub open spec fn hdr_phdr_size(bin: Seq<u8>) -> u16 {
    le_u16(bin.subrange(0x36, 0x38))
}

/// The number of program headers, as the header of `bin` gives it.
pub open spec fn hdr_phdr_num(bin: Seq<u8>) -> u16 {
    le_u16(bin.subrange(0x38, 0x3A))
}

/// The size of one section header, as the header of `bin` gives it.
pub open spec fn hdr_shdr_size(bin: Seq<u8>) -> u16 {
    le_u16(bin.subrange(0x3A, 0x3C))
}

/// The number of section headers, as the header of `bin` gives it.
pub open spec fn hdr_shdr_num(bin: Seq<u8>) -> u16 {
    le_u16(bin.subrange(0x3C, 0x3E))
}

/// The index of the section that names the sections, as the header of
/// `bin` gives it.
pub open spec fn hdr_shstrndx(bin: Seq<u8>) -> u16 {
    le_u16(bin.subrange(0x3E, 0x40))
}

/// The header that the first 64 bytes of `bin` hold.
pub open spec fn spec_header(bin: Seq<u8>) -> Elf_headerView
    recommends
        bin.len() >= 0x40,
{
    Elf_headerView {
        e_ident: elf_magic(),
        e_class: Elf_class::spec_from_code(bin[4]),
        e_endianness: Elf_endiannes::spec_from_code(bin[5]),
        ei_version: bin[6],
        e_abi: Elf_abi::spec_from_code(bin[7]),
        e_abi_version: bin[8],
        e_padding: bin.subrange(0x09, 0x10),
        e_type: Elf_type::spec_from_code(le_u16(bin.subrange(0x10, 0x12))),
        e_arch: Elf_arch::spec_from_code(le_u16(bin.subrange(0x12, 0x14))),
        e_version: le_u32(bin.subrange(0x14, 0x18)),
        e_entry: le_u64(bin.subrange(0x18, 0x20)),
        e_flags: le_u32(bin.subrange(0x30, 0x34)),
        size: le_u16(bin.subrange(0x34, 0x36)),
        phdr_offset: hdr_phdr_offset(bin),
        phdr_size: hdr_phdr_size(bin),
        phdr_num: hdr_phdr_num(bin),
        shdr_offset: hdr_shdr_offset(bin),
        shdr_size: hdr_shdr_size(bin),
        shdr_num: hdr_shdr_num(bin),
        shstrndx: hdr_shstrndx(bin),
    }
}

/// Why the header of `bin` cannot be read, if it cannot: the input is not
/// an ELF header, because it does not start with the magic number or is
/// shorter than a header; or it is one and is not of a 64-bit
/// little-endian image.
pub open spec fn spec_header_error(bin: Seq<u8>) -> Option<ParsingError> {
    if !spec_is_elf(bin) || bin.len() < 0x40 {
        Some(ParsingError::NotElf)
    } else if bin[4] != 2 || bin[5] != 1 {
        Some(ParsingError::ParsingError)
    } else {
        None
    }
}

/// The 64 bytes that hold the header `h`.
pub open spec fn spec_header_bytes(h: Elf_headerView) -> Seq<u8> {
    h.e_ident + seq![h.e_class.spec_code()] + seq![h.e_endianness.spec_code()] + seq![
        h.ei_version,
    ] + seq![h.e_abi.spec_code()] + seq![h.e_abi_version] + h.e_padding + u16_le_bytes(
        h.e_type.spec_code(),
    ) + u16_le_bytes(h.e_arch.spec_code()) + u32_le_bytes(h.e_version) + u64_le_bytes(h.e_entry)
        + u64_le_bytes(h.phdr_offset) + u64_le_bytes(h.shdr_offset) + u32_le_bytes(h.e_flags)
        + u16_le_bytes(h.size) + u16_le_bytes(h.phdr_size) + u16_le_bytes(h.phdr_num)
        + u16_le_bytes(h.shdr_size) + u16_le_bytes(h.shdr_num) + u16_le_bytes(h.shstrndx)
}

/// Each value of the header's enumerations comes back from its own code.
pub proof fn lemma_header_codes_round_trip(h: Elf_headerView)
    ensures
        Elf_type::spec_from_code(h.e_type.spec_code()) == h.e_type,
        Elf_arch::spec_from_code(h.e_arch.spec_code()) == h.e_arch,
        Elf_abi::spec_from_code(h.e_abi.spec_code()) == h.e_abi,
        Elf_class::spec_from_code(h.e_class.spec_code()) == h.e_class,
        Elf_endiannes::spec_from_code(h.e_endianness.spec_code()) == h.e_endianness,
{
}

/// Whether the header `h` is one that can be read back: it starts with the
/// magic number, has seven bytes of padding, and is of the 64-bit class and
/// of little-endian byte order.
pub open spec fn is_readable_header(h: Elf_headerView) -> bool {
    &&& h.e_ident == elf_magic()
    &&& h.e_padding.len() == 7
    &&& h.e_class == Elf_class::ELF64
    &&& h.e_endianness == Elf_endiannes::LittleEndian
}

/// Where each field of the header lies in the 64 bytes written for it.
#[verifier::rlimit(50)]
pub proof fn lemma_header_bytes_layout(h: Elf_headerView)
    requires
        h.e_ident.len() == 4,
        h.e_padding.len() == 7,
    ensures
        spec_header_bytes(h).len() == 0x40,
        spec_header_bytes(h).subrange(0x00, 0x04) == h.e_ident,
        spec_header_bytes(h)[4] == h.e_class.spec_code(),
        spec_header_bytes(h)[5] == h.e_endianness.spec_code(),
        spec_header_bytes(h)[6] == h.ei_version,
        spec_header_bytes(h)[7] == h.e_abi.spec_code(),
        spec_header_bytes(h)[8] == h.e_abi_version,
        spec_header_bytes(h).subrange(0x09, 0x10) == h.e_padding,
        spec_header_bytes(h).subrange(0x10, 0x12) == u16_le_bytes(h.e_type.spec_code()),
        spec_header_bytes(h).subrange(0x12, 0x14) == u16_le_bytes(h.e_arch.spec_code()),
        spec_header_bytes(h).subrange(0x14, 0x18) == u32_le_bytes(h.e_version),
        spec_header_bytes(h).subrange(0x18, 0x20) == u64_le_bytes(h.e_entry),
        spec_header_bytes(h).subrange(0x20, 0x28) == u64_le_bytes(h.phdr_offset),
        spec_header_bytes(h).subrange(0x28, 0x30) == u64_le_bytes(h.shdr_offset),
        spec_header_bytes(h).subrange(0x30, 0x34) == u32_le_bytes(h.e_flags),
        spec_header_bytes(h).subrange(0x34, 0x36) == u16_le_bytes(h.size),
        spec_header_bytes(h).subrange(0x36, 0x38) == u16_le_bytes(h.phdr_size),
        spec_header_bytes(h).subrange(0x38, 0x3A) == u16_le_bytes(h.phdr_num),
        spec_header_bytes(h).subrange(0x3A, 0x3C) == u16_le_bytes(h.shdr_size),
        spec_header_bytes(h).subrange(0x3C, 0x3E) == u16_le_bytes(h.shdr_num),
        spec_header_bytes(h).subrange(0x3E, 0x40) == u16_le_bytes(h.shstrndx),
{
    crate::bytes::lemma_le_u16_round_trip(h.e_type.spec_code());
    crate::bytes::lemma_le_u16_round_trip(h.e_arch.spec_code());
    crate::bytes::lemma_le_u32_round_trip(h.e_version);
    crate::bytes::lemma_le_u64_round_trip(h.e_entry);
    crate::bytes::lemma_le_u64_round_trip(h.phdr_offset);
    crate::bytes::lemma_le_u64_round_trip(h.shdr_offset);
    crate::bytes::lemma_le_u32_round_trip(h.e_flags);
    crate::bytes::lemma_le_u16_round_trip(h.size);
    crate::bytes::lemma_le_u16_round_trip(h.phdr_size);
    crate::bytes::lemma_le_u16_round_trip(h.phdr_num);
    crate::bytes::lemma_le_u16_round_trip(h.shdr_size);
    crate::bytes::lemma_le_u16_round_trip(h.shdr_num);
    crate::bytes::lemma_le_u16_round_trip(h.shstrndx);
    let b = spec_header_bytes(h);
    let pre0 = Seq::<u8>::empty();
    let pre1 = h.e_ident;
    let pre2 = pre1 + seq![h.e_class.spec_code()];
    let pre3 = pre2 + seq![h.e_endianness.spec_code()];
    let pre4 = pre3 + seq![h.ei_version];
    let pre5 = pre4 + seq![h.e_abi.spec_code()];
    let pre6 = pre5 + seq![h.e_abi_version];
    let pre7 = pre6 + h.e_padding;
    let pre8 = pre7 + u16_le_bytes(h.e_type.spec_code());
    let pre9 = pre8 + u16_le_bytes(h.e_arch.spec_code());
    let pre10 = pre9 + u32_le_bytes(h.e_version);
    let pre11 = pre10 + u64_le_bytes(h.e_entry);
    let pre12 = pre11 + u64_le_bytes(h.phdr_offset);
    let pre13 = pre12 + u64_le_bytes(h.shdr_offset);
    let pre14 = pre13 + u32_le_bytes(h.e_flags);
    let pre15 = pre14 + u16_le_bytes(h.size);
    let pre16 = pre15 + u16_le_bytes(h.phdr_size);
    let pre17 = pre16 + u16_le_bytes(h.phdr_num);
    let pre18 = pre17 + u16_le_bytes(h.shdr_size);
    let pre19 = pre18 + u16_le_bytes(h.shdr_num);
    assert(b == pre19 + u16_le_bytes(h.shstrndx));
    assert(pre1 =~= pre0 + pre1);
    assert(pre7.len() == 0x10);
    assert(pre13.len() == 0x30);
    assert(pre19.len() == 0x3E);
    crate::bytes::lemma_starts_with_itself(b);
    crate::bytes::lemma_starts_with_step(b, pre19, u16_le_bytes(h.shstrndx));
    crate::bytes::lemma_starts_with_step(b, pre18, u16_le_bytes(h.shdr_num));
    crate::bytes::lemma_starts_with_step(b, pre17, u16_le_bytes(h.shdr_size));
    crate::bytes::lemma_starts_with_step(b, pre16, u16_le_bytes(h.phdr_num));
    crate::bytes::lemma_starts_with_step(b, pre15, u16_le_bytes(h.phdr_size));
    crate::bytes::lemma_starts_with_step(b, pre14, u16_le_bytes(h.size));
    crate::bytes::lemma_starts_with_step(b, pre13, u32_le_bytes(h.e_flags));
    crate::bytes::lemma_starts_with_step(b, pre12, u64_le_bytes(h.shdr_offset));
    crate::bytes::lemma_starts_with_step(b, pre11, u64_le_bytes(h.phdr_offset));
    crate::bytes::lemma_starts_with_step(b, pre10, u64_le_bytes(h.e_entry));
    crate::bytes::lemma_starts_with_step(b, pre9, u32_le_bytes(h.e_version));
    crate::bytes::lemma_starts_with_step(b, pre8, u16_le_bytes(h.e_arch.spec_code()));
    crate::bytes::lemma_starts_with_step(b, pre7, u16_le_bytes(h.e_type.spec_code()));
    crate::bytes::lemma_starts_with_step(b, pre6, h.e_padding);
    crate::bytes::lemma_starts_with_step(b, pre5, seq![h.e_abi_version]);
    crate::bytes::lemma_starts_with_step(b, pre4, seq![h.e_abi.spec_code()]);
    crate::bytes::lemma_starts_with_step(b, pre3, seq![h.ei_version]);
    crate::bytes::lemma_starts_with_step(b, pre2, seq![h.e_endianness.spec_code()]);
    crate::bytes::lemma_starts_with_step(b, pre1, seq![h.e_class.spec_code()]);
    crate::bytes::lemma_starts_with_step(b, pre0, pre1);
    assert(b.subrange(4, 5)[0] == b[4]);
    assert(b.subrange(5, 6)[0] == b[5]);
    assert(b.subrange(6, 7)[0] == b[6]);
    assert(b.subrange(7, 8)[0] == b[7]);
    assert(b.subrange(8, 9)[0] == b[8]);
}

/// A readable header comes back from the 64 bytes written for it, whatever
/// follows them.
#[verifier::rlimit(50)]
pub proof fn lemma_header_round_trip(h: Elf_headerView, rest: Seq<u8>)
    requires
        is_readable_header(h),
    ensures
        spec_header_error(spec_header_bytes(h) + rest) is None,
        spec_header(spec_header_bytes(h) + rest) == h,
{
    let hb = spec_header_bytes(h);
    let bin = hb + rest;
    lemma_header_bytes_layout(h);
    lemma_header_codes_round_trip(h);
    crate::bytes::lemma_le_u16_round_trip(h.e_type.spec_code());
    crate::bytes::lemma_le_u16_round_trip(h.e_arch.spec_code());
    crate::bytes::lemma_le_u32_round_trip(h.e_version);
    crate::bytes::lemma_le_u64_round_trip(h.e_entry);
    crate::bytes::lemma_le_u64_round_trip(h.phdr_offset);
    crate::bytes::lemma_le_u64_round_trip(h.shdr_offset);
    crate::bytes::lemma_le_u32_round_trip(h.e_flags);
    crate::bytes::lemma_le_u16_round_trip(h.size);
    crate::bytes::lemma_le_u16_round_trip(h.phdr_size);
    crate::bytes::lemma_le_u16_round_trip(h.phdr_num);
    crate::bytes::lemma_le_u16_round_trip(h.shdr_size);
    crate::bytes::lemma_le_u16_round_trip(h.shdr_num);
    crate::bytes::lemma_le_u16_round_trip(h.shstrndx);
    assert(hb.subrange(0, 4)[0] == hb[0]);
    assert(hb.subrange(0, 4)[1] == hb[1]);
    assert(hb.subrange(0, 4)[2] == hb[2]);
    assert(hb.subrange(0, 4)[3] == hb[3]);
    assert(bin[0] == hb[0] && bin[1] == hb[1] && bin[2] == hb[2] && bin[3] == hb[3]);
    assert(bin[4] == hb[4] && bin[5] == hb[5] && bin[6] == hb[6] && bin[7] == hb[7] && bin[8]
        == hb[8]);
    crate::bytes::lemma_front_subrange(hb, rest, 0x09, 0x10);
    crate::bytes::lemma_front_subrange(hb, rest, 0x10, 0x12);
    crate::bytes::lemma_front_subrange(hb, rest, 0x12, 0x14);
    crate::bytes::lemma_front_subrange(hb, rest, 0x14, 0x18);
    crate::bytes::lemma_front_subrange(hb, rest, 0x18, 0x20);
    crate::bytes::lemma_front_subrange(hb, rest, 0x20, 0x28);
    crate::bytes::lemma_front_subrange(hb, rest, 0x28, 0x30);
    crate::bytes::lemma_front_subrange(hb, rest, 0x30, 0x34);
    crate::bytes::lemma_front_subrange(hb, rest, 0x34, 0x36);
    crate::bytes::lemma_front_subrange(hb, rest, 0x36, 0x38);
    crate::bytes::lemma_front_subrange(hb, rest, 0x38, 0x3A);
    crate::bytes::lemma_front_subrange(hb, rest, 0x3A, 0x3C);
    crate::bytes::lemma_front_subrange(hb, rest, 0x3C, 0x3E);
    crate::bytes::lemma_front_subrange(hb, rest, 0x3E, 0x40);
}

impl Elf_header {
    /// Encodes the header as the 64 bytes that start a file.
    pub fn to_le(self) -> (bin: Vec<u8>)
        ensures
            bin@ == spec_header_bytes(self@),
            bin@.len() == 0x40,
    {
        let mut bin: Vec<u8> = Vec::new();
        let mut i: usize = 0;
        while i < 4
            invariant
                i <= 4,
                bin@ == self.e_ident@.subrange(0, i as int),
            decreases 4 - i,
        {
            bin.push(self.e_ident[i]);
            assert(bin@ =~= self.e_ident@.subrange(0, i + 1));
            i += 1;
        }
        assert(bin@ =~= self.e_ident@);
        bin.push(self.e_class.code());
        assert(bin@ =~= self.e_ident@ + seq![self.e_class.spec_code()]);
        let ghost b1 = bin@;
        bin.push(self.e_endianness.code());
        assert(bin@ =~= b1 + seq![self.e_endianness.spec_code()]);
        let ghost b2 = bin@;
        bin.push(self.ei_version);
        assert(bin@ =~= b2 + seq![self.ei_version]);
        let ghost b3 = bin@;
        bin.push(self.e_abi.code());
        assert(bin@ =~= b3 + seq![self.e_abi.spec_code()]);
        let ghost b4 = bin@;
        bin.push(self.e_abi_version);
        assert(bin@ =~= b4 + seq![self.e_abi_version]);
        let ghost b5 = bin@;
        let mut j: usize = 0;
        while j < 7
            invariant
                j <= 7,
                bin@ == b5 + self.e_padding@.subrange(0, j as int),
            decreases 7 - j,
        {
            bin.push(self.e_padding[j]);
            assert(bin@ =~= b5 + self.e_padding@.subrange(0, j + 1));
            j += 1;
        }
        assert(bin@ =~= b5 + self.e_padding@);
        push_u16(&mut bin, self.e_type.code());
        push_u16(&mut bin, self.e_arch.code());
        push_u32(&mut bin, self.e_version);
        push_u64(&mut bin, self.e_entry);
        push_u64(&mut bin, self.phdr_offset);
        push_u64(&mut bin, self.shdr_offset);
        push_u32(&mut bin, self.e_flags);
        push_u16(&mut bin, self.size);
        push_u16(&mut bin, self.phdr_size);
        push_u16(&mut bin, self.phdr_num);
        push_u16(&mut bin, self.shdr_size);
        push_u16(&mut bin, self.shdr_num);
        push_u16(&mut bin, self.shstrndx);
        bin
    }

    /// Decodes the file header from the start of `bin`.
    ///
    /// Fails with `NotElf` when `bin` does not start with the magic number
    /// or is shorter than the 64 bytes of a header, and with `ParsingError`
    /// when it is a header that announces another class than 64-bit or
    /// another byte order than little-endian.
    pub fn parse(bin: &Vec<u8>) -> (r: Result<Elf_header, ParsingError>)
        ensures
            match r {
                Ok(h) => spec_header_error(bin@) is None && h@ == spec_header(bin@),
                Err(e) => spec_header_error(bin@) == Some(e),
            },
    {
        if !is_elf(bin) || bin.len() < EHDR_SIZE {
            return Err(ParsingError::NotElf);
        }
        if bin[4] != 2 || bin[5] != 1 {
            return Err(ParsingError::ParsingError);
        }
        let e_ident: [u8; 4] = [0x7F, 0x45, 0x4C, 0x46];
        let e_padding: [u8; 7] = [bin[0x9], bin[0xA], bin[0xB], bin[0xC], bin[0xD], bin[0xE], bin[0xF]];
        assert(e_ident@ =~= elf_magic());
        assert(e_padding@ =~= bin@.subrange(0x09, 0x10));
        let h = Elf_header {
            e_ident,
            e_endianness: parse_endianness(bin),
            e_class: parse_class(bin),
            ei_version: bin[0x06],
            e_abi_version: bin[0x08],
            e_padding,
            e_abi: parse_abi(bin),
            e_version: read_u32(&bin[0x14..0x18]),
            e_arch: parse_arch(bin),
            e_type: parse_type(bin),
            e_entry: parse_entry64(bin),
            e_flags: read_u32(&bin[0x30..0x34]),
            size: read_u16(&bin[0x34..0x36]),
            phdr_offset: read_u64(&bin[0x20..0x28]),
            phdr_size: read_u16(&bin[0x36..0x38]),
            phdr_num: read_u16(&bin[0x38..0x3A]),
            shdr_offset: read_u64(&bin[0x28..0x30]),
            shdr_size: read_u16(&bin[0x3A..0x3C]),
            shdr_num: read_u16(&bin[0x3C..0x3E]),
            shstrndx: read_u16(&bin[0x3E..0x40]),
        };
        Ok(h)
    }
}

/// Whether `bin` starts with the ELF magic number.
pub fn is_elf(bin: &Vec<u8>) -> (r: bool)
    ensures
        r == spec_is_elf(bin@),
{
    if bin.len() < 4 {
        return false;
    }
    bin[0] == 0x7F && bin[1] == 0x45 && bin[2] == 0x4c && bin[3] == 0x46
}

fn parse_entry64(bin: &Vec<u8>) -> (r: u64)
    requires
        bin@.len() >= 0x20,
    ensures
        r == le_u64(bin@.subrange(0x18, 0x20)),
{
    read_u64(&bin[0x18..0x20])
}

fn parse_type(bin: &Vec<u8>) -> (r: Elf_type)
    requires
        bin@.len() >= 0x12,
    ensures
        r == Elf_type::spec_from_code(le_u16(bin@.subrange(0x10, 0x12))),
{
    Elf_type::from_code(read_u16(&bin[0x10..0x12]))
}

fn parse_arch(bin: &Vec<u8>) -> (r: Elf_arch)
    requires
        bin@.len() >= 0x14,
    ensures
        r == Elf_arch::spec_from_code(le_u16(bin@.subrange(0x12, 0x14))),
{
    Elf_arch::from_code(read_u16(&bin[0x12..0x14]))
}

fn parse_class(bin: &Vec<u8>) -> (r: Elf_class)
    requires
        bin@.len() > 4,
    ensures
        r == Elf_class::spec_from_code(bin@[4]),
{
    Elf_class::from_code(bin[4])
}

fn parse_abi(bin: &Vec<u8>) -> (r: Elf_abi)
    requires
        bin@.len() > 7,
    ensures
        r == Elf_abi::spec_from_code(bin@[7]),
{
    Elf_abi::from_code(bin[7])
}

fn parse_endianness(bin: &Vec<u8>) -> (r: Elf_endiannes)
    requires
        bin@.len() > 5,
    ensures
        r == Elf_endiannes::spec_from_code(bin@[5]),
{
    Elf_endiannes::from_code(bin[5])
}

} // verus!
