use elf::bytes::{push_u16, push_u32, push_u64};
use elf::header::is_elf;
use elf::phdr::{parse_program_header, Phdr_type, ProgramHeader};
use elf::shdr::{
    parse_section_header, str_from_u8_nul_utf8, SectionHeader, Shdr_flags, Shdr_type,
};
use elf::{Elf_abi, Elf_arch, Elf_class, Elf_endiannes, Elf_header, Elf_type, ParsingError};

fn put(bin: &mut Vec<u8>, at: usize, bytes: &[u8]) {
    for (i, b) in bytes.iter().enumerate() {
        bin[at + i] = *b;
    }
}

/// A file header with a different value in every field.
fn header_bytes() -> Vec<u8> {
    let mut bin = vec![0u8; 64];
    put(&mut bin, 0, &[0x7F, 0x45, 0x4C, 0x46, 2, 1, 1, 3, 7]);
    put(&mut bin, 9, &[0xA1, 0xA2, 0xA3, 0xA4, 0xA5, 0xA6, 0xA7]);
    put(&mut bin, 0x10, &[0x03, 0x00]);
    put(&mut bin, 0x12, &[0x3E, 0x00]);
    put(&mut bin, 0x14, &[0x01, 0x02, 0x03, 0x04]);
    put(&mut bin, 0x18, &[0x11, 0x12, 0x13, 0x14, 0x15, 0x16, 0x17, 0x18]);
    put(&mut bin, 0x20, &[0x40, 0x00, 0x00, 0x00, 0x00, 0x00, 0x00, 0x00]);
    put(&mut bin, 0x28, &[0x21, 0x22, 0x23, 0x24, 0x25, 0x26, 0x27, 0x28]);
    put(&mut bin, 0x30, &[0x31, 0x32, 0x33, 0x34]);
    put(&mut bin, 0x34, &[0x40, 0x00]);
    put(&mut bin, 0x36, &[0x38, 0x00]);
    put(&mut bin, 0x38, &[0x00, 0x00]);
    put(&mut bin, 0x3A, &[0x40, 0x00]);
    put(&mut bin, 0x3C, &[0x00, 0x00]);
    put(&mut bin, 0x3E, &[0x51, 0x52]);
    bin
}

#[test]
fn file_header_decodes_every_field() {
    let bin = header_bytes();
    let h = Elf_header::parse(&bin).unwrap();
    assert_eq!(h.e_ident, [0x7F, 0x45, 0x4C, 0x46]);
    assert_eq!(h.e_class, Elf_class::ELF64);
    assert_eq!(h.e_endianness, Elf_endiannes::LittleEndian);
    assert_eq!(h.ei_version, 1);
    assert_eq!(h.e_abi, Elf_abi::Linux);
    assert_eq!(h.e_abi_version, 7);
    assert_eq!(h.e_padding, [0xA1, 0xA2, 0xA3, 0xA4, 0xA5, 0xA6, 0xA7]);
    assert_eq!(h.e_type, Elf_type::DYN);
    assert_eq!(h.e_arch, Elf_arch::AMD64);
    assert_eq!(h.e_version, 0x04030201);
    assert_eq!(h.e_entry, 0x1817161514131211);
    assert_eq!(h.phdr_offset, 0x40);
    assert_eq!(h.shdr_offset, 0x2827262524232221);
    assert_eq!(h.e_flags, 0x34333231);
    assert_eq!(h.size, 0x40);
    assert_eq!(h.phdr_size, 0x38);
    assert_eq!(h.phdr_num, 0);
    assert_eq!(h.shdr_size, 0x40);
    assert_eq!(h.shdr_num, 0);
    assert_eq!(h.shstrndx, 0x5251);
}

#[test]
fn file_header_encodes_back_to_its_bytes() {
    let bin = header_bytes();
    let h = Elf_header::parse(&bin).unwrap();
    let out = h.to_le();
    assert_eq!(out.len(), 64);
    assert_eq!(out, bin);
}

#[test]
fn file_header_accepts_longer_input() {
    let mut bin = header_bytes();
    bin.extend_from_slice(&[9, 9, 9]);
    let h = Elf_header::parse(&bin).unwrap();
    assert_eq!(h.shstrndx, 0x5251);
}

#[test]
fn file_header_errors() {
    let good = header_bytes();
    assert_eq!(Elf_header::parse(&vec![]).err(), Some(ParsingError::NotElf));
    assert_eq!(Elf_header::parse(&good[0..3].to_vec()).err(), Some(ParsingError::NotElf));
    let mut bad = good.clone();
    bad[3] = 0x47;
    assert_eq!(Elf_header::parse(&bad).err(), Some(ParsingError::NotElf));
    let mut bad = good.clone();
    bad[0] = 0x7E;
    assert_eq!(Elf_header::parse(&bad).err(), Some(ParsingError::NotElf));
    // with the magic number and too short for a header: still no ELF header
    assert_eq!(Elf_header::parse(&good[0..4].to_vec()).err(), Some(ParsingError::NotElf));
    assert_eq!(Elf_header::parse(&good[0..63].to_vec()).err(), Some(ParsingError::NotElf));
    let mut short_elf32 = good[0..63].to_vec();
    short_elf32[4] = 1;
    assert_eq!(Elf_header::parse(&short_elf32).err(), Some(ParsingError::NotElf));
    let mut bad = good.clone();
    bad[4] = 1;
    assert_eq!(Elf_header::parse(&bad).err(), Some(ParsingError::ParsingError));
    bad[4] = 3;
    assert_eq!(Elf_header::parse(&bad).err(), Some(ParsingError::ParsingError));
    let mut bad = good.clone();
    bad[5] = 2;
    assert_eq!(Elf_header::parse(&bad).err(), Some(ParsingError::ParsingError));
    // bad magic wins over a short input and a wrong class
    let mut bad = good[0..10].to_vec();
    bad[1] = 0;
    bad[4] = 1;
    assert_eq!(Elf_header::parse(&bad).err(), Some(ParsingError::NotElf));
}

#[test]
fn magic_check() {
    assert!(is_elf(&vec![0x7F, 0x45, 0x4C, 0x46]));
    assert!(is_elf(&vec![0x7F, 0x45, 0x4C, 0x46, 0]));
    assert!(!is_elf(&vec![0x7F, 0x45, 0x4C]));
    assert!(!is_elf(&vec![0x7F, 0x45, 0x4C, 0x45]));
    assert!(!is_elf(&vec![0x45, 0x7F, 0x4C, 0x46]));
    assert!(!is_elf(&vec![]));
}

#[test]
fn unknown_codes_read_as_the_zero_variant() {
    let mut bin = header_bytes();
    bin[7] = 0x55;
    put(&mut bin, 0x10, &[0x34, 0x12]);
    put(&mut bin, 0x12, &[0xFF, 0x7F]);
    let h = Elf_header::parse(&bin).unwrap();
    assert_eq!(h.e_abi, Elf_abi::NONE);
    assert_eq!(h.e_type, Elf_type::NONE);
    assert_eq!(h.e_arch, Elf_arch::NONE);
    // written out, the unknown codes are gone
    let out = h.to_le();
    assert_eq!(out[7], 0);
    assert_eq!(out[0x10..0x14].to_vec(), vec![0, 0, 0, 0]);
}

#[test]
fn header_enum_codes() {
    assert_eq!(Elf_type::CORE.code(), 4);
    assert_eq!(Elf_type::LOOS.code(), 0xfe00);
    assert_eq!(Elf_type::HIPROC.code(), 0xffff);
    assert_eq!(Elf_type::from_code(0xfeff), Elf_type::HIOS);
    assert_eq!(Elf_type::from_code(0xff00), Elf_type::LOPROC);
    assert_eq!(Elf_type::from_code(2), Elf_type::EXEC);
    assert_eq!(Elf_type::from_code(1), Elf_type::REL);
    assert_eq!(Elf_type::from_code(5), Elf_type::NONE);
    assert_eq!(Elf_arch::from_code(0xB7), Elf_arch::AARCH64);
    assert_eq!(Elf_arch::from_code(0xF3), Elf_arch::RISCV);
    assert_eq!(Elf_arch::from_code(0x28), Elf_arch::ARM);
    assert_eq!(Elf_arch::X86.code(), 3);
    assert_eq!(Elf_arch::SUPERH.code(), 0x2A);
    assert_eq!(Elf_abi::from_code(9), Elf_abi::FreeBSD);
    assert_eq!(Elf_abi::from_code(0x12), Elf_abi::OpenVOS);
    assert_eq!(Elf_abi::from_code(5), Elf_abi::NONE);
    assert_eq!(Elf_abi::Solaris.code(), 6);
    assert_eq!(Elf_class::ELF32.code(), 1);
    assert_eq!(Elf_class::ELF64.code(), 2);
    assert_eq!(Elf_class::from_code(1), Elf_class::ELF32);
    assert_eq!(Elf_class::from_code(2), Elf_class::ELF64);
    assert_eq!(Elf_endiannes::from_code(1), Elf_endiannes::LittleEndian);
    assert_eq!(Elf_endiannes::from_code(2), Elf_endiannes::BigEndian);
    assert_eq!(Elf_endiannes::BigEndian.code(), 2);
}

#[test]
fn little_endian_writers() {
    let mut bin = vec![0xEE];
    push_u16(&mut bin, 0x1234);
    assert_eq!(bin, vec![0xEE, 0x34, 0x12]);
    push_u32(&mut bin, 0xA1B2C3D4);
    assert_eq!(bin[3..].to_vec(), vec![0xD4, 0xC3, 0xB2, 0xA1]);
    let mut bin = Vec::new();
    push_u64(&mut bin, 0x0102030405060708);
    assert_eq!(bin, vec![8, 7, 6, 5, 4, 3, 2, 1]);
    let mut bin = Vec::new();
    push_u64(&mut bin, u64::MAX);
    push_u32(&mut bin, u32::MAX);
    push_u16(&mut bin, u16::MAX);
    push_u16(&mut bin, 0);
    assert_eq!(bin.len(), 16);
    assert!(bin[0..14].iter().all(|b| *b == 0xFF));
    assert_eq!(bin[14..16].to_vec(), vec![0, 0]);
}

fn phdr_bytes() -> Vec<u8> {
    let mut b = vec![0u8; 56];
    put(&mut b, 0x00, &[0x01, 0x00, 0x00, 0x00]);
    put(&mut b, 0x04, &[0x05, 0x00, 0x00, 0x80]);
    put(&mut b, 0x08, &[0x00, 0x10, 0x00, 0x00, 0x00, 0x00, 0x00, 0x01]);
    put(&mut b, 0x10, &[0x11, 0x12, 0x13, 0x14, 0x15, 0x16, 0x17, 0x18]);
    put(&mut b, 0x18, &[0x21, 0x22, 0x23, 0x24, 0x25, 0x26, 0x27, 0x28]);
    put(&mut b, 0x20, &[0x34, 0x12, 0x00, 0x00, 0x00, 0x00, 0x00, 0x00]);
    put(&mut b, 0x28, &[0x78, 0x56, 0x00, 0x00, 0x00, 0x00, 0x00, 0x00]);
    put(&mut b, 0x30, &[0x00, 0x10, 0x00, 0x00, 0x00, 0x00, 0x00, 0x00]);
    b
}

#[test]
fn program_header_decodes_fields() {
    let b = phdr_bytes();
    let p = ProgramHeader::parse(&b).unwrap();
    assert_eq!(p.p_type, Phdr_type::LOAD);
    assert_eq!(p.flags, 0x80000005);
    assert_eq!(p.offset, 0x0100000000001000);
    assert_eq!(p.vaddr, 0x1817161514131211);
    assert_eq!(p.paddr, 0x2827262524232221);
    assert_eq!(p.filesz, 0x1234);
    assert_eq!(p.memsz, 0x5678);
    assert_eq!(p.p_align, 0x1000);
}

#[test]
fn program_header_encodes_back_to_its_bytes() {
    let b = phdr_bytes();
    let p = ProgramHeader::parse(&b).unwrap();
    assert_eq!(p.to_le(), b);
    assert_eq!(p.to_le_offset(0), b);
    assert_eq!(ProgramHeader::parse(&p.to_le()), Ok(p));
}

#[test]
fn program_header_offset_bias_is_added_and_wraps() {
    let mut p = ProgramHeader::parse(&phdr_bytes()).unwrap();
    p.offset = 0x80;
    let out = p.to_le_offset(0x400);
    assert_eq!(out.len(), 56);
    assert_eq!(out[0x08..0x10].to_vec(), 0x480u64.to_le_bytes().to_vec());
    assert_eq!(out[0x00..0x08].to_vec(), phdr_bytes()[0x00..0x08].to_vec());
    assert_eq!(out[0x10..].to_vec(), phdr_bytes()[0x10..].to_vec());
    p.offset = u64::MAX;
    let out = p.to_le_offset(2);
    assert_eq!(out[0x08..0x10].to_vec(), 1u64.to_le_bytes().to_vec());
}

#[test]
fn program_header_too_short() {
    let b = vec![0u8; 55];
    assert_eq!(ProgramHeader::parse(&b), Err(ParsingError::ParsingError));
    assert_eq!(ProgramHeader::parse(&[]), Err(ParsingError::ParsingError));
    let mut long = phdr_bytes();
    long.push(0xFF);
    assert_eq!(ProgramHeader::parse(&long).unwrap().filesz, 0x1234);
}

#[test]
fn program_header_kinds() {
    let codes: [(u32, Phdr_type); 12] = [
        (0x0, Phdr_type::NULL),
        (0x1, Phdr_type::LOAD),
        (0x2, Phdr_type::DYNAMIC),
        (0x3, Phdr_type::INTERP),
        (0x4, Phdr_type::NOTE),
        (0x5, Phdr_type::SHLIB),
        (0x6, Phdr_type::PHDR),
        (0x7, Phdr_type::TLS),
        (0x60000000, Phdr_type::LOOS),
        (0x6FFFFFFF, Phdr_type::HIOS),
        (0x70000000, Phdr_type::LOPROC),
        (0x7FFFFFFF, Phdr_type::HIPROC),
    ];
    for (code, kind) in codes.iter() {
        assert_eq!(Phdr_type::from_code(*code), *kind);
        assert_eq!(kind.code(), *code);
    }
    // a GNU extension reads as NULL
    assert_eq!(Phdr_type::from_code(0x6474e550), Phdr_type::NULL);
    assert_eq!(Phdr_type::from_code(8), Phdr_type::NULL);
    let mut b = phdr_bytes();
    put(&mut b, 0, &0x6474e551u32.to_le_bytes());
    assert_eq!(ProgramHeader::parse(&b).unwrap().p_type, Phdr_type::NULL);
}

fn shdr_bytes() -> Vec<u8> {
    let mut b = vec![0u8; 64];
    put(&mut b, 0x00, &[0x1B, 0x00, 0x00, 0x00]);
    put(&mut b, 0x04, &[0x01, 0x00, 0x00, 0x00]);
    put(&mut b, 0x08, &[0x02, 0x00, 0x00, 0x00, 0x00, 0x00, 0x00, 0x00]);
    put(&mut b, 0x10, &[0x11, 0x12, 0x13, 0x14, 0x15, 0x16, 0x17, 0x18]);
    put(&mut b, 0x18, &[0x00, 0x20, 0x00, 0x00, 0x00, 0x00, 0x00, 0x00]);
    put(&mut b, 0x20, &[0x40, 0x01, 0x00, 0x00, 0x00, 0x00, 0x00, 0x00]);
    put(&mut b, 0x28, &[0x05, 0x00, 0x00, 0x00]);
    put(&mut b, 0x2C, &[0x06, 0x00, 0x00, 0x00]);
    put(&mut b, 0x30, &[0x10, 0x00, 0x00, 0x00, 0x00, 0x00, 0x00, 0x00]);
    put(&mut b, 0x38, &[0x18, 0x00, 0x00, 0x00, 0x00, 0x00, 0x00, 0x00]);
    b
}

#[test]
fn section_header_decodes_fields() {
    let h = SectionHeader::parse(&shdr_bytes(), ".text").unwrap();
    assert_eq!(h.name, ".text");
    assert_eq!(h.shstrndx_offset, 0x1B);
    assert_eq!(h.sh_type, Shdr_type::PROGBITS);
    assert_eq!(h.flags, Shdr_flags::ALLOC);
    assert_eq!(h.addr, 0x1817161514131211);
    assert_eq!(h.offset, 0x2000);
    assert_eq!(h.size, 0x140);
    assert_eq!(h.link, 5);
    assert_eq!(h.info, 6);
    assert_eq!(h.addralign, 0x10);
    assert_eq!(h.entsize, 0x18);
}

#[test]
fn section_header_encodes_back_to_its_bytes() {
    let b = shdr_bytes();
    let h = SectionHeader::parse(&b, "x").unwrap();
    assert_eq!(h.to_le().len(), 64);
    assert_eq!(h.to_le(), b);
    let out = h.to_le_offset(0x1000);
    assert_eq!(out[0x18..0x20].to_vec(), 0x3000u64.to_le_bytes().to_vec());
    assert_eq!(out[0..0x18].to_vec(), b[0..0x18].to_vec());
    assert_eq!(out[0x20..].to_vec(), b[0x20..].to_vec());
    let moved = h.with_offset(u64::MAX);
    assert_eq!(moved.name, "x");
    assert_eq!(moved.size, 0x140);
    assert_eq!(moved.to_le_offset(3)[0x18..0x20].to_vec(), 2u64.to_le_bytes().to_vec());
}

#[test]
fn section_header_too_short() {
    assert_eq!(
        SectionHeader::parse(&shdr_bytes()[0..63], "x").err(),
        Some(ParsingError::ParsingError)
    );
}

#[test]
fn section_flags_keep_single_masks_only() {
    let mut b = shdr_bytes();
    put(&mut b, 0x08, &[0x03, 0x00, 0x00, 0x00, 0x00, 0x00, 0x00, 0x00]);
    let h = SectionHeader::parse(&b, "").unwrap();
    assert_eq!(h.flags, Shdr_flags::NONE);
    assert_eq!(h.to_le()[0x08..0x10].to_vec(), vec![0u8; 8]);
    // only the low half of the field is looked at
    put(&mut b, 0x08, &[0x04, 0x00, 0x00, 0x00, 0x01, 0x00, 0x00, 0x00]);
    let h = SectionHeader::parse(&b, "").unwrap();
    assert_eq!(h.flags, Shdr_flags::EXECINSTR);
    assert_eq!(h.to_le()[0x08..0x10].to_vec(), vec![4, 0, 0, 0, 0, 0, 0, 0]);
    assert_eq!(Shdr_flags::from_code(0x0ff00000), Shdr_flags::MASKOS);
    assert_eq!(Shdr_flags::from_code(0xf0000000), Shdr_flags::MASKPROC);
    assert_eq!(Shdr_flags::TLS.code(), 0x400);
    assert_eq!(Shdr_flags::EXCLUDE.code(), 0x8000000);
    assert_eq!(Shdr_flags::from_code(0x4000000), Shdr_flags::ORDERED);
}

#[test]
fn section_kinds() {
    assert_eq!(Shdr_type::from_code(8), Shdr_type::NOBITS);
    assert_eq!(Shdr_type::from_code(0xB), Shdr_type::DYNSYM);
    assert_eq!(Shdr_type::from_code(0xE), Shdr_type::INIT_ARRAY);
    assert_eq!(Shdr_type::from_code(0x13), Shdr_type::NUM);
    assert_eq!(Shdr_type::from_code(0x60000000), Shdr_type::LOOS);
    assert_eq!(Shdr_type::from_code(0xC), Shdr_type::NULL);
    assert_eq!(Shdr_type::from_code(0x60000001), Shdr_type::NULL);
    assert_eq!(Shdr_type::from_code(0x6ffffffe), Shdr_type::NULL);
    assert_eq!(Shdr_type::SYMTAB_SHNDX.code(), 0x12);
    assert_eq!(Shdr_type::GNU_VERDEF.code(), 0x60000001);
    assert_eq!(Shdr_type::GNU_VERSYM.code(), 0x60000003);
    assert_eq!(Shdr_type::RELA.code(), 4);
}

#[test]
fn nul_terminated_strings() {
    assert_eq!(str_from_u8_nul_utf8(b".text\0.data\0"), Ok(".text"));
    assert_eq!(str_from_u8_nul_utf8(b"\0abc"), Ok(""));
    assert_eq!(str_from_u8_nul_utf8(b"abc"), Ok("abc"));
    assert_eq!(str_from_u8_nul_utf8(b""), Ok(""));
    assert_eq!(str_from_u8_nul_utf8("gr\u{fc}n\0x".as_bytes()), Ok("gr\u{fc}n"));
    // not UTF-8 in front of the first zero byte
    assert_eq!(str_from_u8_nul_utf8(&[0x61, 0xFF, 0x00]), Err(ParsingError::ParsingError));
    assert_eq!(str_from_u8_nul_utf8(&[0xC3]), Err(ParsingError::ParsingError));
    // behind it nothing is looked at
    assert_eq!(str_from_u8_nul_utf8(&[0x61, 0x00, 0xFF]), Ok("a"));
}

/// A file of 0x200 bytes: file header, no program headers, a string table
/// at 0x40 and three section headers at 0x80.
fn sections_image(shstrndx: u16) -> Vec<u8> {
    let mut bin = vec![0u8; 0x140];
    put(&mut bin, 0, &[0x7F, 0x45, 0x4C, 0x46, 2, 1, 1, 0]);
    put(&mut bin, 0x28, &0x80u64.to_le_bytes());
    put(&mut bin, 0x34, &64u16.to_le_bytes());
    put(&mut bin, 0x36, &56u16.to_le_bytes());
    put(&mut bin, 0x3A, &64u16.to_le_bytes());
    put(&mut bin, 0x3C, &3u16.to_le_bytes());
    put(&mut bin, 0x3E, &shstrndx.to_le_bytes());
    put(&mut bin, 0x40, b"\0.text\0.shstrtab\0");
    // section 1: .text
    put(&mut bin, 0xC0, &1u32.to_le_bytes());
    put(&mut bin, 0xC4, &1u32.to_le_bytes());
    put(&mut bin, 0xC0 + 0x18, &0x60u64.to_le_bytes());
    put(&mut bin, 0xC0 + 0x20, &0x10u64.to_le_bytes());
    // section 2: .shstrtab
    put(&mut bin, 0x100, &7u32.to_le_bytes());
    put(&mut bin, 0x104, &3u32.to_le_bytes());
    put(&mut bin, 0x100 + 0x18, &0x40u64.to_le_bytes());
    put(&mut bin, 0x100 + 0x20, &17u64.to_le_bytes());
    bin
}

#[test]
fn section_names_come_from_the_string_table() {
    let shdrs = parse_section_header(&sections_image(2), 2).unwrap();
    assert_eq!(shdrs.len(), 3);
    assert_eq!(shdrs[0].name, "");
    assert_eq!(shdrs[0].sh_type, Shdr_type::NULL);
    assert_eq!(shdrs[1].name, ".text");
    assert_eq!(shdrs[1].offset, 0x60);
    assert_eq!(shdrs[1].size, 0x10);
    assert_eq!(shdrs[2].name, ".shstrtab");
    assert_eq!(shdrs[2].sh_type, Shdr_type::STRTAB);
    assert_eq!(shdrs[2].shstrndx_offset, 7);
}

#[test]
fn sections_are_unnamed_without_a_usable_index() {
    for shstrndx in [0u16, 3, 4, 0xFFFF] {
        let shdrs = parse_section_header(&sections_image(shstrndx), shstrndx).unwrap();
        assert_eq!(shdrs.len(), 3);
        assert_eq!(shdrs[1].name, "");
        assert_eq!(shdrs[2].name, "");
        assert_eq!(shdrs[1].offset, 0x60);
    }
}

#[test]
fn another_section_can_serve_as_string_table() {
    // section 1 covers 0x60..0x70, which holds zero bytes only
    let shdrs = parse_section_header(&sections_image(1), 1).unwrap();
    assert_eq!(shdrs[0].name, "");
    assert_eq!(shdrs[1].name, "");
    assert_eq!(shdrs[2].name, "");
    // a name index at the very end of the table names the empty string
    let mut bin = sections_image(1);
    put(&mut bin, 0xC0, &0x10u32.to_le_bytes());
    put(&mut bin, 0x60, &[0x41; 16]);
    let shdrs = parse_section_header(&bin, 1).unwrap();
    assert_eq!(shdrs[1].name, "");
    assert_eq!(shdrs[0].name, "AAAAAAAAAAAAAAAA");
    assert_eq!(shdrs[2].name, "AAAAAAAAA");
}

#[test]
fn section_table_errors() {
    let good = sections_image(2);
    assert!(parse_section_header(&good, 2).is_ok());
    // the table runs past the end
    assert_eq!(
        parse_section_header(&good[0..0x13F].to_vec(), 2).err(),
        Some(ParsingError::ParsingError)
    );
    // shorter than a file header
    assert_eq!(
        parse_section_header(&good[0..0x3F].to_vec(), 2).err(),
        Some(ParsingError::ParsingError)
    );
    // entries narrower than a section header
    let mut bad = good.clone();
    put(&mut bad, 0x3A, &63u16.to_le_bytes());
    assert_eq!(parse_section_header(&bad, 2).err(), Some(ParsingError::ParsingError));
    // a name index behind the string table
    let mut bad = good.clone();
    put(&mut bad, 0xC0, &18u32.to_le_bytes());
    assert_eq!(parse_section_header(&bad, 2).err(), Some(ParsingError::ParsingError));
    // a string table that runs past the end of the file
    let mut bad = good.clone();
    put(&mut bad, 0x100 + 0x20, &0x1000u64.to_le_bytes());
    assert_eq!(parse_section_header(&bad, 2).err(), Some(ParsingError::ParsingError));
    let mut bad = good.clone();
    put(&mut bad, 0x100 + 0x18, &u64::MAX.to_le_bytes());
    assert_eq!(parse_section_header(&bad, 2).err(), Some(ParsingError::ParsingError));
    // a name that is not UTF-8
    let mut bad = good.clone();
    bad[0x42] = 0xFF;
    assert_eq!(parse_section_header(&bad, 2).err(), Some(ParsingError::ParsingError));
    // none of this matters where the sections are not named
    assert!(parse_section_header(&bad, 0).is_ok());
    // an offset near the top of the range does not wrap round
    let mut bad = good.clone();
    put(&mut bad, 0x28, &(u64::MAX - 0x10).to_le_bytes());
    assert_eq!(parse_section_header(&bad, 2).err(), Some(ParsingError::ParsingError));
}

#[test]
fn wider_section_entries_are_read_from_their_start() {
    let mut bin = vec![0u8; 0x40 + 2 * 0x50];
    put(&mut bin, 0, &[0x7F, 0x45, 0x4C, 0x46, 2, 1, 1, 0]);
    put(&mut bin, 0x28, &0x40u64.to_le_bytes());
    put(&mut bin, 0x3A, &0x50u16.to_le_bytes());
    put(&mut bin, 0x3C, &2u16.to_le_bytes());
    put(&mut bin, 0x40 + 0x50 + 0x04, &8u32.to_le_bytes());
    put(&mut bin, 0x40 + 0x50 + 0x18, &0x77u64.to_le_bytes());
    let shdrs = parse_section_header(&bin, 0).unwrap();
    assert_eq!(shdrs.len(), 2);
    assert_eq!(shdrs[1].sh_type, Shdr_type::NOBITS);
    assert_eq!(shdrs[1].offset, 0x77);
}

#[test]
fn program_table_errors_and_empty_table() {
    let mut bin = vec![0u8; 0x40 + 56];
    put(&mut bin, 0, &[0x7F, 0x45, 0x4C, 0x46, 2, 1, 1, 0]);
    put(&mut bin, 0x20, &0x40u64.to_le_bytes());
    put(&mut bin, 0x36, &56u16.to_le_bytes());
    put(&mut bin, 0x38, &1u16.to_le_bytes());
    put(&mut bin, 0x40, &6u32.to_le_bytes());
    let phdrs = parse_program_header(&bin).unwrap();
    assert_eq!(phdrs.len(), 1);
    assert_eq!(phdrs[0].p_type, Phdr_type::PHDR);
    assert_eq!(
        parse_program_header(&bin[0..0x40 + 55].to_vec()).err(),
        Some(ParsingError::ParsingError)
    );
    assert_eq!(
        parse_program_header(&bin[0..0x3F].to_vec()).err(),
        Some(ParsingError::ParsingError)
    );
    let mut bad = bin.clone();
    put(&mut bad, 0x36, &55u16.to_le_bytes());
    assert_eq!(parse_program_header(&bad).err(), Some(ParsingError::ParsingError));
    let mut bad = bin.clone();
    put(&mut bad, 0x38, &2u16.to_le_bytes());
    assert_eq!(parse_program_header(&bad).err(), Some(ParsingError::ParsingError));
    let mut bad = bin.clone();
    put(&mut bad, 0x20, &u64::MAX.to_le_bytes());
    assert_eq!(parse_program_header(&bad).err(), Some(ParsingError::ParsingError));
    // with no entries nothing else of the header matters
    let mut none = bin.clone();
    put(&mut none, 0x38, &0u16.to_le_bytes());
    put(&mut none, 0x20, &u64::MAX.to_le_bytes());
    put(&mut none, 0x36, &0u16.to_le_bytes());
    assert_eq!(parse_program_header(&none), Ok(vec![]));
}
