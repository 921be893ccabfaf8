use elf::block::{generate_section_headers, size, Block};
use elf::builder::{
    build_tree, fill_raw_data_block, find_narrowest, find_sections_narrowfit, init_segments,
    into_blocks, nest_segments, sort_blocks,
};
use elf::editor::{remove_ne_phdrs, remove_phdrs_by_type, remove_shdrs};
use elf::phdr::{parse_program_header, Phdr_type, ProgramHeader};
use elf::section::Section;
use elf::segment::Segment;
use elf::shdr::{parse_section_header, SectionHeader, Shdr_flags, Shdr_type};
use elf::{Elf, ParsingError};

const PT_NULL: u32 = 0;
const PT_LOAD: u32 = 1;
const PT_DYNAMIC: u32 = 2;
const PT_INTERP: u32 = 3;
const PT_NOTE: u32 = 4;
const PT_PHDR: u32 = 6;
const SHT_PROGBITS: u32 = 1;
const SHT_STRTAB: u32 = 3;
const SHT_NOBITS: u32 = 8;

fn put(bin: &mut Vec<u8>, at: usize, bytes: &[u8]) {
    for (i, b) in bytes.iter().enumerate() {
        bin[at + i] = *b;
    }
}

fn put_header(bin: &mut Vec<u8>, phoff: u64, phnum: u16, shoff: u64, shnum: u16, shstrndx: u16) {
    put(bin, 0, &[0x7F, 0x45, 0x4C, 0x46, 2, 1, 1, 0, 0, 0, 0, 0, 0, 0, 0, 0]);
    put(bin, 0x10, &3u16.to_le_bytes());
    put(bin, 0x12, &0x3Eu16.to_le_bytes());
    put(bin, 0x14, &1u32.to_le_bytes());
    put(bin, 0x18, &0x1040u64.to_le_bytes());
    put(bin, 0x20, &phoff.to_le_bytes());
    put(bin, 0x28, &shoff.to_le_bytes());
    put(bin, 0x30, &0u32.to_le_bytes());
    put(bin, 0x34, &64u16.to_le_bytes());
    put(bin, 0x36, &56u16.to_le_bytes());
    put(bin, 0x38, &phnum.to_le_bytes());
    put(bin, 0x3A, &64u16.to_le_bytes());
    put(bin, 0x3C, &shnum.to_le_bytes());
    put(bin, 0x3E, &shstrndx.to_le_bytes());
}

fn put_phdr(bin: &mut Vec<u8>, at: usize, p_type: u32, offset: u64, filesz: u64) {
    put(bin, at, &p_type.to_le_bytes());
    put(bin, at + 0x04, &4u32.to_le_bytes());
    put(bin, at + 0x08, &offset.to_le_bytes());
    put(bin, at + 0x10, &(0x400000 + offset).to_le_bytes());
    put(bin, at + 0x18, &(0x400000 + offset).to_le_bytes());
    put(bin, at + 0x20, &filesz.to_le_bytes());
    put(bin, at + 0x28, &filesz.to_le_bytes());
    put(bin, at + 0x30, &0x1000u64.to_le_bytes());
}

fn put_shdr(bin: &mut Vec<u8>, at: usize, name: u32, sh_type: u32, offset: u64, size: u64) {
    put(bin, at, &name.to_le_bytes());
    put(bin, at + 0x04, &sh_type.to_le_bytes());
    put(bin, at + 0x08, &2u64.to_le_bytes());
    put(bin, at + 0x10, &(0x400000 + offset).to_le_bytes());
    put(bin, at + 0x18, &offset.to_le_bytes());
    put(bin, at + 0x20, &size.to_le_bytes());
    put(bin, at + 0x28, &0u32.to_le_bytes());
    put(bin, at + 0x2C, &0u32.to_le_bytes());
    put(bin, at + 0x30, &8u64.to_le_bytes());
    put(bin, at + 0x38, &0u64.to_le_bytes());
}

fn patterned(len: usize) -> Vec<u8> {
    let mut bin = Vec::new();
    for i in 0..len {
        bin.push((i % 251) as u8 + 1);
    }
    bin
}

fn phdr(p_type: Phdr_type, offset: u64, filesz: u64) -> ProgramHeader {
    ProgramHeader { p_type, flags: 4, offset, vaddr: 0, paddr: 0, filesz, memsz: filesz, p_align: 1 }
}

fn shdr(name: &str, sh_type: Shdr_type, offset: u64, size: u64) -> SectionHeader {
    SectionHeader {
        name: String::from(name),
        shstrndx_offset: 0,
        sh_type,
        flags: Shdr_flags::ALLOC,
        addr: 0,
        offset,
        size,
        link: 0,
        info: 0,
        addralign: 1,
        entsize: 0,
    }
}

fn as_segment(b: &Block) -> &Segment {
    match b {
        Block::Segment(s) => s,
        _ => panic!("not a segment"),
    }
}

fn as_section(b: &Block) -> &Section {
    match b {
        Block::Section(s) => s,
        _ => panic!("not a section"),
    }
}

fn as_raw(b: &Block) -> &Vec<u8> {
    match b {
        Block::RawDat(d) => d,
        _ => panic!("not raw data"),
    }
}

/// The smallest image: a file header whose last 56 bytes double as the one
/// program header, a LOAD of the 64 bytes of the file.
fn minimal_image() -> Vec<u8> {
    let mut bin = vec![0u8; 64];
    put(&mut bin, 0, &[0x7F, 0x45, 0x4C, 0x46, 2, 1, 1, 0, 1, 0, 0, 0, 0, 0, 0, 0]);
    put(&mut bin, 0x20, &8u64.to_le_bytes());
    put(&mut bin, 0x28, &64u64.to_le_bytes());
    put(&mut bin, 0x34, &64u16.to_le_bytes());
    put(&mut bin, 0x36, &56u16.to_le_bytes());
    put(&mut bin, 0x38, &1u16.to_le_bytes());
    bin
}

#[test]
fn minimal_elf_has_one_raw_child() {
    let bin = minimal_image();
    let elf = Elf::parse(bin.clone()).unwrap();
    assert_eq!(elf.phdrs.len(), 1);
    assert_eq!(elf.phdrs[0].p_type, Phdr_type::LOAD);
    assert_eq!(elf.phdrs[0].offset, 0);
    assert_eq!(elf.phdrs[0].filesz, 64);
    assert_eq!(elf.shdrs.len(), 0);
    assert_eq!(elf.blocks.len(), 1);
    let root = as_segment(&elf.blocks[0]);
    assert_eq!(root.blocks.len(), 1);
    assert_eq!(as_raw(&root.blocks[0]), &bin);
}

#[test]
fn minimal_elf_round_trips_to_its_bytes() {
    let bin = minimal_image();
    let elf = Elf::parse(bin.clone()).unwrap();
    assert_eq!(elf.to_le(), bin);
}

/// A file of 0x840 bytes laid out like a small dynamic executable.
///
/// 0x000 file header, 0x040 program headers (8 of them), 0x200 .interp,
/// 0x220 .note, 0x240 .text up to 0x400, 0x400 .data, 0x480 .dynamic,
/// 0x500 .got up to 0x600, then .shstrtab at 0x600 and the section headers
/// at 0x640.
fn dynamic_image() -> Vec<u8> {
    let mut bin = patterned(0x840);
    put_header(&mut bin, 0x40, 8, 0x640, 8, 7);
    put_phdr(&mut bin, 0x40, PT_PHDR, 0x40, 0x1C0);
    put_phdr(&mut bin, 0x78, PT_INTERP, 0x200, 0x20);
    put_phdr(&mut bin, 0xB0, PT_LOAD, 0x0, 0x400);
    put_phdr(&mut bin, 0xE8, PT_LOAD, 0x400, 0x200);
    put_phdr(&mut bin, 0x120, PT_DYNAMIC, 0x480, 0x80);
    put_phdr(&mut bin, 0x158, PT_NOTE, 0x220, 0x20);
    put_phdr(&mut bin, 0x190, PT_NULL, 0x0, 0x0);
    put_phdr(&mut bin, 0x1C8, PT_NULL, 0x0, 0x0);
    let names = b"\0.interp\0.note\0.text\0.data\0.dynamic\0.got\0.shstrtab\0";
    put(&mut bin, 0x600, names);
    for i in 0x600 + names.len()..0x640 {
        bin[i] = 0;
    }
    put_shdr(&mut bin, 0x640, 0, 0, 0, 0);
    put_shdr(&mut bin, 0x680, 1, SHT_PROGBITS, 0x200, 0x20);
    put_shdr(&mut bin, 0x6C0, 9, SHT_PROGBITS, 0x220, 0x20);
    put_shdr(&mut bin, 0x700, 15, SHT_PROGBITS, 0x240, 0x1C0);
    put_shdr(&mut bin, 0x740, 21, SHT_PROGBITS, 0x400, 0x80);
    put_shdr(&mut bin, 0x780, 27, SHT_PROGBITS, 0x480, 0x80);
    put_shdr(&mut bin, 0x7C0, 36, SHT_PROGBITS, 0x500, 0x100);
    put_shdr(&mut bin, 0x800, 41, SHT_STRTAB, 0x600, 0x40);
    bin
}

fn count_sections_named(blocks: &Vec<Block>, name: &str) -> usize {
    let mut n = 0;
    for b in blocks {
        match b {
            Block::Segment(s) => n += count_sections_named(&s.blocks, name),
            Block::Section(s) => {
                if s.hdr.name == name {
                    n += 1;
                }
            },
            _ => {},
        }
    }
    n
}

#[test]
fn dynamic_layout_parses_tables() {
    let bin = dynamic_image();
    let phdrs = parse_program_header(&bin).unwrap();
    assert_eq!(phdrs.len(), 8);
    assert_eq!(phdrs[0].p_type, Phdr_type::PHDR);
    assert_eq!(phdrs[0].offset, 0x40);
    assert_eq!(phdrs[0].filesz, 0x1C0);
    assert_eq!(phdrs[0].vaddr, 0x400040);
    assert_eq!(phdrs[0].p_align, 0x1000);
    assert_eq!(phdrs[4].p_type, Phdr_type::DYNAMIC);
    assert_eq!(phdrs[5].p_type, Phdr_type::NOTE);
    let shdrs = parse_section_header(&bin, 7).unwrap();
    assert_eq!(shdrs.len(), 8);
    assert_eq!(shdrs[0].name, "");
    assert_eq!(shdrs[1].name, ".interp");
    assert_eq!(shdrs[2].name, ".note");
    assert_eq!(shdrs[3].name, ".text");
    assert_eq!(shdrs[4].name, ".data");
    assert_eq!(shdrs[5].name, ".dynamic");
    assert_eq!(shdrs[6].name, ".got");
    assert_eq!(shdrs[7].name, ".shstrtab");
    assert_eq!(shdrs[7].sh_type, Shdr_type::STRTAB);
    assert_eq!(shdrs[3].offset, 0x240);
    assert_eq!(shdrs[3].size, 0x1C0);
    assert_eq!(shdrs[3].shstrndx_offset, 15);
    assert_eq!(shdrs[3].flags, Shdr_flags::ALLOC);
    assert_eq!(shdrs[3].addralign, 8);
}

#[test]
fn dynamic_layout_roots_are_the_load_segments() {
    let bin = dynamic_image();
    let elf = Elf::parse(bin.clone()).unwrap();
    assert_eq!(elf.blocks.len(), 2);
    let load0 = as_segment(&elf.blocks[0]);
    let load1 = as_segment(&elf.blocks[1]);
    assert_eq!(load0.phdr.p_type, Phdr_type::LOAD);
    assert_eq!(load0.phdr.offset, 0);
    assert_eq!(load1.phdr.p_type, Phdr_type::LOAD);
    assert_eq!(load1.phdr.offset, 0x400);
    // load0: section 0, the two empty NULL segments, the raw file header,
    // PHDR, INTERP, NOTE, .text
    assert_eq!(load0.blocks.len(), 8);
    let null_sec = as_section(&load0.blocks[0]);
    assert_eq!(null_sec.hdr.name, "");
    assert_eq!(null_sec.content.len(), 0);
    assert_eq!(as_segment(&load0.blocks[1]).phdr.p_type, Phdr_type::NULL);
    assert_eq!(as_segment(&load0.blocks[1]).blocks.len(), 0);
    assert_eq!(as_segment(&load0.blocks[2]).phdr.p_type, Phdr_type::NULL);
    assert_eq!(as_raw(&load0.blocks[3]), &bin[0..0x40].to_vec());
    let phdr_seg = as_segment(&load0.blocks[4]);
    assert_eq!(phdr_seg.phdr.p_type, Phdr_type::PHDR);
    assert_eq!(phdr_seg.phdr.offset, 0x40);
    assert_eq!(phdr_seg.blocks.len(), 1);
    assert_eq!(as_raw(&phdr_seg.blocks[0]), &bin[0x40..0x200].to_vec());
    let interp_seg = as_segment(&load0.blocks[5]);
    assert_eq!(interp_seg.phdr.p_type, Phdr_type::INTERP);
    assert_eq!(interp_seg.phdr.offset, 0x200);
    assert_eq!(interp_seg.blocks.len(), 1);
    let interp_sec = as_section(&interp_seg.blocks[0]);
    assert_eq!(interp_sec.hdr.name, ".interp");
    assert_eq!(interp_sec.hdr.offset, 0);
    assert_eq!(interp_sec.content, bin[0x200..0x220].to_vec());
    let note_seg = as_segment(&load0.blocks[6]);
    assert_eq!(note_seg.phdr.p_type, Phdr_type::NOTE);
    assert_eq!(note_seg.phdr.offset, 0x220);
    assert_eq!(as_section(&note_seg.blocks[0]).hdr.name, ".note");
    let text = as_section(&load0.blocks[7]);
    assert_eq!(text.hdr.name, ".text");
    assert_eq!(text.hdr.offset, 0x240);
    assert_eq!(text.content, bin[0x240..0x400].to_vec());
    // load1: .data, DYNAMIC (holding .dynamic), .got
    assert_eq!(load1.blocks.len(), 3);
    let data = as_section(&load1.blocks[0]);
    assert_eq!(data.hdr.name, ".data");
    assert_eq!(data.hdr.offset, 0);
    let dynamic = as_segment(&load1.blocks[1]);
    assert_eq!(dynamic.phdr.p_type, Phdr_type::DYNAMIC);
    assert_eq!(dynamic.phdr.offset, 0x80);
    assert_eq!(dynamic.blocks.len(), 1);
    assert_eq!(as_section(&dynamic.blocks[0]).hdr.name, ".dynamic");
    assert_eq!(as_section(&dynamic.blocks[0]).hdr.offset, 0);
    let got = as_section(&load1.blocks[2]);
    assert_eq!(got.hdr.name, ".got");
    assert_eq!(got.hdr.offset, 0x100);
    assert_eq!(got.content, bin[0x500..0x600].to_vec());
}

#[test]
fn segments_with_one_start_nest_into_the_first_found() {
    // a LOAD and a DYNAMIC that start at one offset each hold the start of
    // the other: the LOAD, looked at first, moves into the DYNAMIC
    let phdrs = vec![phdr(Phdr_type::LOAD, 0x400, 0x200), phdr(Phdr_type::DYNAMIC, 0x400, 0x80)];
    let nested = nest_segments(init_segments(&phdrs), 0);
    assert_eq!(nested.len(), 1);
    let root = as_segment(&nested[0]);
    assert_eq!(root.phdr.p_type, Phdr_type::DYNAMIC);
    assert_eq!(as_segment(&root.blocks[0]).phdr.p_type, Phdr_type::LOAD);
    assert_eq!(as_segment(&root.blocks[0]).phdr.offset, 0);
}

#[test]
fn interp_section_appears_once_under_interp_segment() {
    let elf = Elf::parse(dynamic_image()).unwrap();
    assert_eq!(count_sections_named(&elf.blocks, ".interp"), 1);
    assert_eq!(count_sections_named(&elf.blocks, ".dynamic"), 1);
    // .shstrtab lies in no segment: it is in the header vector only
    assert_eq!(count_sections_named(&elf.blocks, ".shstrtab"), 0);
    assert_eq!(elf.shdrs.len(), 8);
    assert_eq!(elf.shdrs[7].name, ".shstrtab");
}

#[test]
fn flattened_tree_covers_the_segments() {
    let bin = dynamic_image();
    let blocks = into_blocks(bin.clone()).unwrap();
    assert_eq!(size(&blocks), 0x600);
    let mut flat = Vec::new();
    for b in blocks {
        flat.extend(b.to_bin());
    }
    assert_eq!(flat, bin[0..0x600].to_vec());
}

#[test]
fn nested_segment_offsets_are_relative() {
    let bin = dynamic_image();
    let elf = Elf::parse(bin).unwrap();
    // in the table the DYNAMIC segment is at 0x480; in the tree it is at
    // 0x80 from the start of the LOAD at 0x400
    assert_eq!(elf.phdrs[4].offset, 0x480);
    let load1 = as_segment(&elf.blocks[1]);
    assert_eq!(as_segment(&load1.blocks[1]).phdr.offset, 0x480 - load1.phdr.offset);
    let load0 = as_segment(&elf.blocks[0]);
    assert_eq!(elf.phdrs[0].offset, 0x40);
    assert_eq!(as_segment(&load0.blocks[4]).phdr.offset, 0x40 - load0.phdr.offset);
    // written with its parent's position added, the header is that of the table
    assert_eq!(
        as_segment(&load1.blocks[1]).phdr.to_le_offset(0x400),
        elf.phdrs[4].to_le()
    );
    // the regenerated headers have file positions again
    let headers = generate_section_headers(&elf.blocks, 0);
    assert_eq!(headers.len(), 7);
    assert_eq!(headers[0].name, "");
    assert_eq!(headers[0].offset, 0);
    assert_eq!(headers[1].name, ".interp");
    assert_eq!(headers[1].offset, 0x200);
    assert_eq!(headers[2].name, ".note");
    assert_eq!(headers[2].offset, 0x220);
    assert_eq!(headers[3].name, ".text");
    assert_eq!(headers[3].offset, 0x240);
    assert_eq!(headers[4].name, ".data");
    assert_eq!(headers[4].offset, 0x400);
    assert_eq!(headers[5].name, ".dynamic");
    assert_eq!(headers[5].offset, 0x480);
    assert_eq!(headers[6].name, ".got");
    assert_eq!(headers[6].offset, 0x500);
    assert_eq!(headers[6].size, 0x100);
    // from another start every offset moves with it
    let moved = generate_section_headers(&elf.blocks, 0x1000);
    assert_eq!(moved[3].offset, 0x1240);
}

#[test]
fn serialised_image_has_tree_then_table() {
    let bin = dynamic_image();
    let elf = Elf::parse(bin.clone()).unwrap();
    let out = elf.to_le();
    assert_eq!(out.len(), 0x600 + 7 * 64);
    // behind the header the bytes of the tree are those of the file
    assert_eq!(out[0x40..0x600].to_vec(), bin[0x40..0x600].to_vec());
    // the header says where the new table is
    assert_eq!(out[0x28..0x30].to_vec(), 0x600u64.to_le_bytes().to_vec());
    assert_eq!(out[0x3C..0x3E].to_vec(), 7u16.to_le_bytes().to_vec());
    // and keeps the program-header table where it was
    assert_eq!(out[0x20..0x28].to_vec(), 0x40u64.to_le_bytes().to_vec());
    assert_eq!(out[0x38..0x3A].to_vec(), 8u16.to_le_bytes().to_vec());
    assert_eq!(out[0..0x20].to_vec(), bin[0..0x20].to_vec());
    // entry 3 of the new table is .text at 0x240
    let text = SectionHeader::parse(&out[0x600 + 3 * 64..0x600 + 4 * 64], ".text").unwrap();
    assert_eq!(text.offset, 0x240);
    assert_eq!(text.size, 0x1C0);
    assert_eq!(text.sh_type, Shdr_type::PROGBITS);
    assert_eq!(text.shstrndx_offset, 15);
}

#[test]
fn reparsed_output_has_same_program_headers_and_tree_shape() {
    let bin = dynamic_image();
    let first = Elf::parse(bin).unwrap();
    let phdrs = first.phdrs.clone();
    let out = first.to_le();
    let second = Elf::parse(out).unwrap();
    assert_eq!(second.phdrs, phdrs);
    assert_eq!(second.blocks.len(), 2);
    let load0 = as_segment(&second.blocks[0]);
    assert_eq!(load0.blocks.len(), 8);
    assert_eq!(as_segment(&load0.blocks[5]).phdr.p_type, Phdr_type::INTERP);
    assert_eq!(as_segment(&second.blocks[1]).blocks.len(), 3);
    // the section that lay in no segment is not in the new table
    assert_eq!(second.shdrs.len(), 7);
    assert_eq!(second.shdrs[3].offset, 0x240);
    assert_eq!(second.shdrs[3].size, 0x1C0);
    assert_eq!(second.shdrs[6].offset, 0x500);
}

#[test]
fn nobits_section_at_segment_end_is_attached_empty() {
    let phdrs = vec![phdr(Phdr_type::LOAD, 0x3000, 0x1000)];
    let shdrs = vec![shdr(".bss", Shdr_type::NOBITS, 0x4000, 0x1000)];
    // the file ends where the segment ends: the section's range is not in it
    let bin = patterned(0x4000);
    assert_eq!(find_narrowest(&phdrs, &shdrs[0]), Some(0));
    let blocks = find_sections_narrowfit(&phdrs, &shdrs, &bin).unwrap();
    assert_eq!(blocks.len(), 1);
    let seg = as_segment(&blocks[0]);
    assert_eq!(seg.blocks.len(), 1);
    let bss = as_section(&seg.blocks[0]);
    assert_eq!(bss.hdr.name, ".bss");
    assert_eq!(bss.hdr.offset, 0x1000);
    assert_eq!(bss.hdr.size, 0x1000);
    assert_eq!(bss.content.len(), 0);
    let tree = build_tree(&phdrs, &shdrs, &bin).unwrap();
    let seg = as_segment(&tree[0]);
    assert_eq!(seg.blocks.len(), 2);
    assert_eq!(as_raw(&seg.blocks[0]), &bin[0x3000..0x4000].to_vec());
    assert_eq!(as_section(&seg.blocks[1]).content.len(), 0);
}

#[test]
fn nobits_section_at_segment_start_is_not_attached() {
    let phdrs = vec![phdr(Phdr_type::LOAD, 0x3000, 0x1000)];
    let nobits = shdr(".tbss", Shdr_type::NOBITS, 0x3000, 0x10);
    let progbits = shdr(".text", Shdr_type::PROGBITS, 0x3000, 0x10);
    let at_end = shdr(".tail", Shdr_type::PROGBITS, 0x4000, 0x10);
    assert_eq!(find_narrowest(&phdrs, &nobits), None);
    assert_eq!(find_narrowest(&phdrs, &progbits), Some(0));
    assert_eq!(find_narrowest(&phdrs, &at_end), None);
}

#[test]
fn narrowest_segment_wins_and_first_on_a_tie() {
    let phdrs = vec![
        phdr(Phdr_type::LOAD, 0x0, 0x1000),
        phdr(Phdr_type::NOTE, 0x100, 0x40),
        phdr(Phdr_type::NULL, 0x100, 0x40),
        phdr(Phdr_type::INTERP, 0x120, 0x10),
    ];
    assert_eq!(find_narrowest(&phdrs, &shdr("a", Shdr_type::PROGBITS, 0x50, 8)), Some(0));
    assert_eq!(find_narrowest(&phdrs, &shdr("b", Shdr_type::PROGBITS, 0x100, 8)), Some(1));
    assert_eq!(find_narrowest(&phdrs, &shdr("c", Shdr_type::PROGBITS, 0x120, 8)), Some(3));
    assert_eq!(find_narrowest(&phdrs, &shdr("d", Shdr_type::PROGBITS, 0x130, 8)), Some(1));
    assert_eq!(find_narrowest(&phdrs, &shdr("e", Shdr_type::PROGBITS, 0x1000, 8)), None);
}

#[test]
fn section_outside_every_segment_is_dropped() {
    let phdrs = vec![phdr(Phdr_type::LOAD, 0x0, 0x100)];
    let shdrs = vec![
        shdr(".text", Shdr_type::PROGBITS, 0x40, 0x20),
        shdr(".comment", Shdr_type::PROGBITS, 0x180, 0x20),
    ];
    let bin = patterned(0x200);
    let blocks = find_sections_narrowfit(&phdrs, &shdrs, &bin).unwrap();
    let seg = as_segment(&blocks[0]);
    assert_eq!(seg.blocks.len(), 1);
    assert_eq!(as_section(&seg.blocks[0]).hdr.name, ".text");
    assert_eq!(as_section(&seg.blocks[0]).content, bin[0x40..0x60].to_vec());
}

#[test]
fn section_running_past_the_file_is_an_error() {
    let phdrs = vec![phdr(Phdr_type::LOAD, 0x0, 0x100)];
    let shdrs = vec![shdr(".text", Shdr_type::PROGBITS, 0x40, 0x1000)];
    let bin = patterned(0x200);
    assert!(matches!(
        find_sections_narrowfit(&phdrs, &shdrs, &bin),
        Err(ParsingError::ParsingError)
    ));
    // one that no segment holds is not looked at
    let shdrs = vec![shdr(".far", Shdr_type::PROGBITS, 0x1000, 0x1000)];
    assert!(find_sections_narrowfit(&phdrs, &shdrs, &bin).is_ok());
}

#[test]
fn segment_running_past_the_file_is_an_error() {
    let phdrs = vec![phdr(Phdr_type::LOAD, 0x0, 0x300)];
    let bin = patterned(0x200);
    assert!(matches!(build_tree(&phdrs, &vec![], &bin), Err(ParsingError::ParsingError)));
    let phdrs = vec![phdr(Phdr_type::LOAD, 0x0, 0x200)];
    assert!(build_tree(&phdrs, &vec![], &bin).is_ok());
}

#[test]
fn init_segments_makes_empty_roots_in_order() {
    let phdrs = vec![phdr(Phdr_type::LOAD, 0x10, 0x20), phdr(Phdr_type::NOTE, 0x0, 0x0)];
    let roots = init_segments(&phdrs);
    assert_eq!(roots.len(), 2);
    assert_eq!(as_segment(&roots[0]).phdr, phdrs[0]);
    assert_eq!(as_segment(&roots[1]).phdr, phdrs[1]);
    assert_eq!(as_segment(&roots[0]).blocks.len(), 0);
}

#[test]
fn nesting_puts_kept_roots_in_front_newest_first() {
    let phdrs = vec![
        phdr(Phdr_type::PHDR, 0x40, 0x40),
        phdr(Phdr_type::LOAD, 0x0, 0x100),
        phdr(Phdr_type::LOAD, 0x100, 0x100),
        phdr(Phdr_type::DYNAMIC, 0x180, 0x20),
    ];
    let nested = nest_segments(init_segments(&phdrs), 0);
    assert_eq!(nested.len(), 2);
    let first = as_segment(&nested[0]);
    let second = as_segment(&nested[1]);
    assert_eq!(first.phdr.offset, 0x100);
    assert_eq!(second.phdr.offset, 0x0);
    assert_eq!(first.blocks.len(), 1);
    assert_eq!(as_segment(&first.blocks[0]).phdr.p_type, Phdr_type::DYNAMIC);
    assert_eq!(as_segment(&first.blocks[0]).phdr.offset, 0x80);
    assert_eq!(as_segment(&second.blocks[0]).phdr.p_type, Phdr_type::PHDR);
    assert_eq!(as_segment(&second.blocks[0]).phdr.offset, 0x40);
}

#[test]
fn nesting_from_a_later_index_leaves_earlier_roots() {
    let phdrs = vec![phdr(Phdr_type::PHDR, 0x40, 0x40), phdr(Phdr_type::LOAD, 0x0, 0x100)];
    let nested = nest_segments(init_segments(&phdrs), 1);
    assert_eq!(nested.len(), 2);
    assert_eq!(as_segment(&nested[0]).phdr.p_type, Phdr_type::LOAD);
    assert_eq!(as_segment(&nested[1]).phdr.p_type, Phdr_type::PHDR);
    let nested = nest_segments(init_segments(&phdrs), 2);
    assert_eq!(as_segment(&nested[0]).phdr.p_type, Phdr_type::PHDR);
}

#[test]
fn sort_is_by_offset_and_stable() {
    let mut blocks = vec![
        Block::Section(Section::from(shdr("c", Shdr_type::PROGBITS, 0x30, 1), &vec![3])),
        Block::Section(Section::from(shdr("a", Shdr_type::PROGBITS, 0x10, 1), &vec![1])),
        Block::Segment(Segment::from(vec![], phdr(Phdr_type::NOTE, 0x10, 4), vec![])),
        Block::Section(Section::from(shdr("b", Shdr_type::PROGBITS, 0x20, 1), &vec![2])),
        Block::Section(Section::from(shdr("a2", Shdr_type::PROGBITS, 0x10, 1), &vec![4])),
    ];
    sort_blocks(&mut blocks);
    assert_eq!(as_section(&blocks[0]).hdr.name, "a");
    assert_eq!(as_segment(&blocks[1]).phdr.p_type, Phdr_type::NOTE);
    assert_eq!(as_section(&blocks[2]).hdr.name, "a2");
    assert_eq!(as_section(&blocks[3]).hdr.name, "b");
    assert_eq!(as_section(&blocks[4]).hdr.name, "c");
}

#[test]
fn gaps_are_filled_in_front_of_and_behind_children() {
    let bin = patterned(0x100);
    let mut seg = Segment::from(vec![], phdr(Phdr_type::LOAD, 0x10, 0x80), vec![]);
    seg.blocks.push(Block::Section(Section::from(
        shdr("a", Shdr_type::PROGBITS, 0x08, 0x08),
        &bin[0x18..0x20].to_vec(),
    )));
    seg.blocks.push(Block::Section(Section::from(
        shdr("b", Shdr_type::PROGBITS, 0x10, 0x10),
        &bin[0x20..0x30].to_vec(),
    )));
    seg.blocks.push(Block::Section(Section::from(
        shdr("c", Shdr_type::PROGBITS, 0x40, 0x10),
        &bin[0x50..0x60].to_vec(),
    )));
    let filled = fill_raw_data_block(seg, &bin, 0x10).unwrap();
    assert_eq!(filled.blocks.len(), 6);
    assert_eq!(as_raw(&filled.blocks[0]), &bin[0x10..0x18].to_vec());
    assert_eq!(as_section(&filled.blocks[1]).hdr.name, "a");
    assert_eq!(as_section(&filled.blocks[2]).hdr.name, "b");
    assert_eq!(as_raw(&filled.blocks[3]), &bin[0x30..0x50].to_vec());
    assert_eq!(as_section(&filled.blocks[4]).hdr.name, "c");
    assert_eq!(as_raw(&filled.blocks[5]), &bin[0x60..0x90].to_vec());
    // the blocks are the bytes of the whole range of the segment
    assert_eq!(filled.to_le(), bin[0x10..0x90].to_vec());
}

#[test]
fn bytes_behind_the_last_child_are_filled() {
    // a segment of 100 bytes whose one child is a section of 10 at its start
    let bin = patterned(100);
    let mut seg = Segment::from(vec![], phdr(Phdr_type::LOAD, 0, 100), vec![]);
    seg.blocks.push(Block::Section(Section::from(
        shdr("s", Shdr_type::PROGBITS, 0, 10),
        &bin[0..10].to_vec(),
    )));
    let filled = fill_raw_data_block(seg, &bin, 0).unwrap();
    assert_eq!(filled.blocks.len(), 2);
    assert_eq!(as_section(&filled.blocks[0]).content, bin[0..10].to_vec());
    assert_eq!(as_raw(&filled.blocks[1]), &bin[10..100].to_vec());
    assert_eq!(filled.to_le(), bin);
    // and in every nested segment
    let phdrs = vec![phdr(Phdr_type::LOAD, 0, 100), phdr(Phdr_type::NOTE, 20, 30)];
    let shdrs = vec![shdr(".n", Shdr_type::NOTE, 20, 10)];
    let tree = build_tree(&phdrs, &shdrs, &bin).unwrap();
    assert_eq!(tree.len(), 1);
    let root = as_segment(&tree[0]);
    assert_eq!(root.blocks.len(), 3);
    assert_eq!(as_raw(&root.blocks[0]), &bin[0..20].to_vec());
    let note = as_segment(&root.blocks[1]);
    assert_eq!(note.blocks.len(), 2);
    assert_eq!(as_section(&note.blocks[0]).content, bin[20..30].to_vec());
    assert_eq!(as_raw(&note.blocks[1]), &bin[30..50].to_vec());
    assert_eq!(as_raw(&root.blocks[2]), &bin[50..100].to_vec());
    assert_eq!(size(&tree), 100);
}

#[test]
fn trailing_bytes_must_lie_in_the_file() {
    // the children end in the file, the segment does not
    let bin = patterned(50);
    let mut seg = Segment::from(vec![], phdr(Phdr_type::LOAD, 0, 100), vec![]);
    seg.blocks.push(Block::Section(Section::from(
        shdr("s", Shdr_type::PROGBITS, 0, 10),
        &bin[0..10].to_vec(),
    )));
    assert!(matches!(fill_raw_data_block(seg, &bin, 0), Err(ParsingError::ParsingError)));
    // a child that ends behind the end of its segment leaves nothing to fill
    let mut seg = Segment::from(vec![], phdr(Phdr_type::LOAD, 0, 100), vec![]);
    seg.blocks.push(Block::Section(Section::from(
        shdr("s", Shdr_type::PROGBITS, 90, 20),
        &vec![7; 20],
    )));
    let filled = fill_raw_data_block(seg, &bin, 0);
    assert!(matches!(filled, Err(ParsingError::ParsingError)));
    let bin = patterned(90);
    let mut seg = Segment::from(vec![], phdr(Phdr_type::LOAD, 0, 100), vec![]);
    seg.blocks.push(Block::Section(Section::from(
        shdr("s", Shdr_type::PROGBITS, 90, 20),
        &vec![7; 20],
    )));
    let filled = fill_raw_data_block(seg, &bin, 0).unwrap();
    assert_eq!(filled.blocks.len(), 2);
    assert_eq!(as_raw(&filled.blocks[0]), &bin[0..90].to_vec());
    assert_eq!(filled.to_le().len(), 110);
}

#[test]
fn one_root_with_one_small_section_covers_the_file() {
    // file header, one program header behind it, a LOAD of the whole file
    // and one section of 16 bytes at 0x78
    let mut bin = patterned(0x100 + 2 * 64);
    put_header(&mut bin, 0x40, 1, 0x100, 2, 0);
    put_phdr(&mut bin, 0x40, PT_LOAD, 0, 0x100);
    put_shdr(&mut bin, 0x100, 0, 0, 0x400, 0);
    put_shdr(&mut bin, 0x140, 0, SHT_PROGBITS, 0x78, 0x10);
    let blocks = into_blocks(bin.clone()).unwrap();
    assert_eq!(blocks.len(), 1);
    let root = as_segment(&blocks[0]);
    assert_eq!(root.blocks.len(), 3);
    assert_eq!(as_raw(&root.blocks[0]), &bin[0..0x78].to_vec());
    assert_eq!(as_section(&root.blocks[1]).content, bin[0x78..0x88].to_vec());
    assert_eq!(as_raw(&root.blocks[2]), &bin[0x88..0x100].to_vec());
    let mut flat = Vec::new();
    for b in blocks {
        flat.extend(b.to_bin());
    }
    assert_eq!(flat, bin[0..0x100].to_vec());
}

#[test]
fn filling_twice_is_refused() {
    let bin = patterned(0x100);
    let seg = Segment::from(vec![], phdr(Phdr_type::LOAD, 0x10, 0x20), vec![]);
    let filled = fill_raw_data_block(seg, &bin, 0x10).unwrap();
    assert_eq!(filled.blocks.len(), 1);
    assert!(matches!(fill_raw_data_block(filled, &bin, 0x10), Err(ParsingError::ParsingError)));
}

#[test]
fn empty_segment_without_file_size_stays_empty() {
    let bin = patterned(0x10);
    let seg = Segment::from(vec![], phdr(Phdr_type::NULL, 0x1000, 0), vec![]);
    let filled = fill_raw_data_block(seg, &bin, 0x1000).unwrap();
    assert_eq!(filled.blocks.len(), 0);
}

#[test]
fn removing_section_headers_zeroes_table_and_fields() {
    let mut bin = patterned(0xE000 + 30 * 64);
    put_header(&mut bin, 0x40, 1, 0xE000, 30, 0);
    put_phdr(&mut bin, 0x40, PT_LOAD, 0, 0x1000);
    for i in 0..30 {
        put_shdr(&mut bin, 0xE000 + i * 64, 0, SHT_PROGBITS, 0xD000 + (i as u64) * 0x10, 0x10);
    }
    let mut elf = Elf::parse(bin.clone()).unwrap();
    assert_eq!(elf.header.shdr_num, 30);
    assert_eq!(elf.header.shdr_offset, 0xE000);
    assert_eq!(elf.shdrs.len(), 30);
    remove_shdrs(&mut elf);
    assert_eq!(elf.header.shdr_offset, 0);
    assert_eq!(elf.header.shdr_num, 0);
    assert_eq!(elf.header.shdr_size, 0);
    assert_eq!(elf.header.shstrndx, 0);
    assert_eq!(elf.raw.len(), bin.len());
    assert!(elf.raw[0xE000..0xE000 + 30 * 64].iter().all(|b| *b == 0));
    assert_eq!(elf.raw[0..0xE000].to_vec(), bin[0..0xE000].to_vec());
    // the parsed headers and the tree are as they were
    assert_eq!(elf.shdrs.len(), 30);
    assert_eq!(elf.blocks.len(), 1);
    // the image written out has no table and says so
    let out = elf.to_le();
    assert_eq!(out.len(), 0x1000);
    assert_eq!(out[0x28..0x30].to_vec(), vec![0u8; 8]);
    assert_eq!(out[0x3C..0x3E].to_vec(), vec![0, 0]);
    assert_eq!(out[0x3E..0x40].to_vec(), vec![0, 0]);
    assert_eq!(out[0x3A..0x3C].to_vec(), vec![0, 0]);
    assert_eq!(out[0x40..0x1000].to_vec(), bin[0x40..0x1000].to_vec());
}

#[test]
fn removing_section_headers_twice_is_as_once() {
    let mut once = Elf::parse(dynamic_image()).unwrap();
    let mut twice = Elf::parse(dynamic_image()).unwrap();
    remove_shdrs(&mut once);
    remove_shdrs(&mut twice);
    remove_shdrs(&mut twice);
    assert_eq!(once.raw, twice.raw);
    assert_eq!(once.header.to_le(), twice.header.to_le());
    assert!(once.raw[0x640..0x840].iter().all(|b| *b == 0));
    assert_eq!(once.raw[0x40..0x640].to_vec(), dynamic_image()[0x40..0x640].to_vec());
}

#[test]
fn removing_a_table_that_runs_past_the_bytes_stops_at_the_end() {
    let mut elf = Elf::parse(seven_phdr_image()).unwrap();
    elf.header.shdr_offset = 0x5F0;
    elf.header.shdr_num = 4;
    elf.header.shdr_size = 64;
    remove_shdrs(&mut elf);
    assert_eq!(elf.raw.len(), 0x600);
    assert!(elf.raw[0x5F0..0x600].iter().all(|b| *b == 0));
    assert_eq!(elf.raw[0..0x5F0].to_vec(), seven_phdr_image()[0..0x5F0].to_vec());
    assert_ne!(elf.raw[0x5EF], 0);
    // one that starts behind the bytes changes none of them
    let mut elf = Elf::parse(seven_phdr_image()).unwrap();
    elf.header.shdr_offset = 0x600;
    elf.header.shdr_num = 4;
    elf.header.shdr_size = 64;
    remove_shdrs(&mut elf);
    assert_eq!(elf.raw, seven_phdr_image());
}

/// An image whose program headers are PHDR, INTERP, LOAD, LOAD, DYNAMIC,
/// NOTE, NULL, in this order.
fn seven_phdr_image() -> Vec<u8> {
    let mut bin = patterned(0x600);
    put_header(&mut bin, 0x40, 7, 0, 0, 0);
    put_phdr(&mut bin, 0x40, PT_PHDR, 0x40, 0x188);
    put_phdr(&mut bin, 0x78, PT_INTERP, 0x200, 0x20);
    put_phdr(&mut bin, 0xB0, PT_LOAD, 0x0, 0x400);
    put_phdr(&mut bin, 0xE8, PT_LOAD, 0x400, 0x200);
    put_phdr(&mut bin, 0x120, PT_DYNAMIC, 0x400, 0x80);
    put_phdr(&mut bin, 0x158, PT_NOTE, 0x220, 0x20);
    put_phdr(&mut bin, 0x190, PT_NULL, 0x0, 0x0);
    bin
}

#[test]
fn stripping_note_and_null_keeps_five_in_order() {
    let bin = seven_phdr_image();
    let mut elf = Elf::parse(bin.clone()).unwrap();
    assert_eq!(elf.header.phdr_num, 7);
    remove_phdrs_by_type(&mut elf, |t: Phdr_type| t != Phdr_type::NOTE && t != Phdr_type::NULL);
    assert_eq!(elf.header.phdr_num, 5);
    let kinds: Vec<Phdr_type> = elf.phdrs.iter().map(|p| p.p_type).collect();
    assert_eq!(
        kinds,
        vec![
            Phdr_type::PHDR,
            Phdr_type::INTERP,
            Phdr_type::LOAD,
            Phdr_type::LOAD,
            Phdr_type::DYNAMIC
        ]
    );
    let survivors = elf.phdrs.clone();
    let out = elf.to_le();
    assert_eq!(out[0x38..0x3A].to_vec(), 5u16.to_le_bytes().to_vec());
    for (i, p) in survivors.iter().enumerate() {
        let entry = ProgramHeader::parse(&out[0x40 + i * 56..0x40 + (i + 1) * 56]).unwrap();
        assert_eq!(entry, *p);
    }
}

#[test]
fn remove_ne_phdrs_is_the_note_and_null_filter() {
    let mut a = Elf::parse(seven_phdr_image()).unwrap();
    let mut b = Elf::parse(seven_phdr_image()).unwrap();
    remove_ne_phdrs(&mut a);
    remove_phdrs_by_type(&mut b, |t: Phdr_type| t != Phdr_type::NOTE && t != Phdr_type::NULL);
    assert_eq!(a.phdrs, b.phdrs);
    assert_eq!(a.header.phdr_num, 5);
    assert_eq!(a.blocks.len(), b.blocks.len());
    assert_eq!(a.raw, seven_phdr_image());
}

#[test]
fn filter_that_keeps_nothing_and_everything() {
    let mut elf = Elf::parse(seven_phdr_image()).unwrap();
    remove_phdrs_by_type(&mut elf, |_t: Phdr_type| true);
    assert_eq!(elf.phdrs.len(), 7);
    assert_eq!(elf.header.phdr_num, 7);
    remove_phdrs_by_type(&mut elf, |_t: Phdr_type| false);
    assert_eq!(elf.phdrs.len(), 0);
    assert_eq!(elf.header.phdr_num, 0);
}

#[test]
fn parse_is_not_elf_exactly_on_bad_magic() {
    let good = dynamic_image();
    assert!(Elf::parse(good.clone()).is_ok());
    for i in 0..4 {
        let mut bad = good.clone();
        bad[i] ^= 0xFF;
        assert!(matches!(Elf::parse(bad), Err(ParsingError::NotElf)));
    }
    assert!(matches!(Elf::parse(vec![]), Err(ParsingError::NotElf)));
    assert!(matches!(Elf::parse(vec![0x7F, 0x45, 0x4C]), Err(ParsingError::NotElf)));
    // with the magic in place every failure is a parsing error
    assert!(matches!(Elf::parse(vec![0x7F, 0x45, 0x4C, 0x46]), Err(ParsingError::ParsingError)));
    assert!(matches!(Elf::parse(good[0..63].to_vec()), Err(ParsingError::ParsingError)));
    let mut elf32 = good.clone();
    elf32[4] = 1;
    assert!(matches!(Elf::parse(elf32), Err(ParsingError::ParsingError)));
    let mut big_endian = good.clone();
    big_endian[5] = 2;
    assert!(matches!(Elf::parse(big_endian), Err(ParsingError::ParsingError)));
    assert!(matches!(Elf::parse(good[0..0x800].to_vec()), Err(ParsingError::ParsingError)));
}

#[test]
fn into_blocks_fails_on_truncated_tables() {
    let good = dynamic_image();
    assert!(into_blocks(good.clone()).is_ok());
    assert!(matches!(into_blocks(good[0..0x83F].to_vec()), Err(ParsingError::ParsingError)));
    assert!(matches!(into_blocks(good[0..0x100].to_vec()), Err(ParsingError::ParsingError)));
    assert!(matches!(into_blocks(good[0..0x3F].to_vec()), Err(ParsingError::ParsingError)));
}

#[test]
fn block_sizes_add_up() {
    let elf = Elf::parse(dynamic_image()).unwrap();
    assert_eq!(elf.blocks[0].size(), 0x400);
    assert_eq!(elf.blocks[1].size(), 0x200);
    assert_eq!(size(&elf.blocks), 0x600);
    let load0 = as_segment(&elf.blocks[0]);
    assert_eq!(load0.blocks[0].size(), 0);
    assert_eq!(load0.blocks[1].size(), 0);
    assert_eq!(load0.blocks[3].size(), 0x40);
    assert_eq!(load0.blocks[4].size(), 0x1C0);
    assert_eq!(load0.blocks[7].size(), 0x1C0);
}

#[test]
fn adjacent_siblings_abut_after_filling() {
    let elf = Elf::parse(dynamic_image()).unwrap();
    for root in &elf.blocks {
        let seg = as_segment(root);
        let mut cursor: u64 = 0;
        for b in &seg.blocks {
            match b {
                Block::Segment(s) => assert_eq!(s.phdr.offset, cursor),
                Block::Section(s) => assert_eq!(s.hdr.offset, cursor),
                _ => {},
            }
            cursor += b.size() as u64;
        }
        assert_eq!(cursor, seg.phdr.filesz);
    }
}

/// A file whose one LOAD segment holds every section, the string table
/// among them, with the section-header table `gap` bytes behind the segment.
fn tiled_image(gap: usize) -> Vec<u8> {
    let shoff = 0x400 + gap;
    let mut bin = patterned(shoff + 4 * 64);
    put_header(&mut bin, 0x40, 2, shoff as u64, 4, 2);
    put_phdr(&mut bin, 0x40, PT_LOAD, 0x0, 0x400);
    put_phdr(&mut bin, 0x78, PT_PHDR, 0x40, 0x70);
    let names = b"\0.text\0.shstrtab\0.data\0";
    for i in 0x300..0x340 {
        bin[i] = 0;
    }
    put(&mut bin, 0x300, names);
    put_shdr(&mut bin, shoff, 0, 0, 0, 0);
    put_shdr(&mut bin, shoff + 0x40, 1, SHT_PROGBITS, 0xB0, 0x250);
    put_shdr(&mut bin, shoff + 0x80, 7, SHT_STRTAB, 0x300, 0x40);
    put_shdr(&mut bin, shoff + 0xC0, 17, SHT_PROGBITS, 0x340, 0xC0);
    // section 0 is all zero but for what put_shdr writes into every entry
    for i in shoff..shoff + 0x40 {
        bin[i] = 0;
    }
    bin
}

/// The tree without the bytes it holds: kinds, headers and lengths.
fn shape(blocks: &Vec<Block>) -> String {
    let mut out = String::new();
    for b in blocks {
        match b {
            Block::Segment(s) => {
                out.push_str(&format!("seg({:?} [{}])", s.phdr, shape(&s.blocks)));
            },
            Block::Section(s) => {
                out.push_str(&format!("sec({:?} {})", s.hdr, s.content.len()));
            },
            Block::RawDat(d) => out.push_str(&format!("raw({})", d.len())),
            Block::Padding(d) => out.push_str(&format!("pad({})", d.len())),
        }
    }
    out
}

#[test]
fn tiled_image_is_written_out_byte_for_byte() {
    let bin = tiled_image(0);
    let elf = Elf::parse(bin.clone()).unwrap();
    assert_eq!(elf.shdrs[1].name, ".text");
    assert_eq!(elf.shdrs[2].name, ".shstrtab");
    assert_eq!(elf.shdrs[3].name, ".data");
    assert_eq!(elf.blocks.len(), 1);
    assert_eq!(as_segment(&elf.blocks[0]).blocks.len(), 6);
    assert_eq!(elf.to_le(), bin);
}

#[test]
fn round_trip_of_tiled_image_keeps_headers_and_shape() {
    let bin = tiled_image(0x80);
    let first = Elf::parse(bin.clone()).unwrap();
    let phdrs = first.phdrs.clone();
    let names: Vec<String> = first.shdrs.iter().map(|s| s.name.clone()).collect();
    let tables: Vec<Vec<u8>> = first.shdrs.iter().map(|s| s.to_le()).collect();
    let first_shape = shape(&first.blocks);
    let out = first.to_le();
    assert_ne!(out, bin);
    assert_eq!(out.len(), 0x400 + 4 * 64);
    assert_eq!(out[0x28..0x30].to_vec(), 0x400u64.to_le_bytes().to_vec());
    let second = Elf::parse(out).unwrap();
    assert_eq!(second.phdrs, phdrs);
    assert_eq!(second.shdrs.iter().map(|s| s.name.clone()).collect::<Vec<String>>(), names);
    assert_eq!(second.shdrs.iter().map(|s| s.to_le()).collect::<Vec<Vec<u8>>>(), tables);
    assert_eq!(shape(&second.blocks), first_shape);
    assert_eq!(second.header.shdr_offset, 0x400);
    assert_eq!(second.header.shdr_num, 4);
    assert_eq!(second.header.phdr_num, 2);
}

#[test]
fn every_section_lies_in_its_narrowest_segment() {
    // no segment below the parent of a section holds the section's start
    fn holds(b: &Block, origin: u64, at: u64) -> bool {
        match b {
            Block::Segment(s) => {
                (origin <= at && at < origin + s.phdr.filesz)
                    || s.blocks.iter().any(|c| match c {
                        Block::Segment(cs) => holds(c, origin + cs.phdr.offset, at),
                        _ => false,
                    })
            },
            _ => false,
        }
    }
    fn check(seg: &Segment, origin: u64) {
        for b in &seg.blocks {
            match b {
                Block::Section(sec) => {
                    for c in &seg.blocks {
                        if let Block::Segment(cs) = c {
                            assert!(!holds(c, origin + cs.phdr.offset, origin + sec.hdr.offset));
                        }
                    }
                },
                Block::Segment(cs) => check(cs, origin + cs.phdr.offset),
                _ => {},
            }
        }
    }
    let elf = Elf::parse(dynamic_image()).unwrap();
    for root in &elf.blocks {
        let seg = as_segment(root);
        check(seg, seg.phdr.offset);
    }
}

#[test]
fn a_section_in_two_segments_of_one_range_goes_to_the_first() {
    // with two segments of one range the section lies in the first, which
    // then moves into the second
    let phdrs = vec![phdr(Phdr_type::NOTE, 0x10, 0x20), phdr(Phdr_type::NULL, 0x10, 0x20)];
    let shdrs = vec![shdr(".note", Shdr_type::NOTE, 0x10, 0x20)];
    let bin = patterned(0x40);
    let tree = build_tree(&phdrs, &shdrs, &bin).unwrap();
    assert_eq!(tree.len(), 1);
    let root = as_segment(&tree[0]);
    assert_eq!(root.phdr.p_type, Phdr_type::NULL);
    let inner = as_segment(&root.blocks[0]);
    assert_eq!(inner.phdr.p_type, Phdr_type::NOTE);
    assert_eq!(as_section(&inner.blocks[0]).hdr.name, ".note");
}

#[test]
fn a_larger_segment_nested_in_a_smaller_one_holds_its_sections_too() {
    // the second segment starts inside the first and runs past its end: it
    // moves into the first although it is the larger, and a section of the
    // first that lies in the overlap lies in the nested segment as well
    let phdrs = vec![phdr(Phdr_type::LOAD, 0x10, 0x20), phdr(Phdr_type::NOTE, 0x20, 0x40)];
    let shdrs = vec![shdr(".both", Shdr_type::PROGBITS, 0x28, 0x08)];
    let bin = patterned(0x80);
    assert_eq!(find_narrowest(&phdrs, &shdrs[0]), Some(0));
    let tree = build_tree(&phdrs, &shdrs, &bin).unwrap();
    assert_eq!(tree.len(), 1);
    let root = as_segment(&tree[0]);
    assert_eq!(root.phdr.p_type, Phdr_type::LOAD);
    // raw 0x10..0x20, the nested segment at 0x10, the section at 0x18
    assert_eq!(root.blocks.len(), 3);
    assert_eq!(as_raw(&root.blocks[0]).len(), 0x10);
    let nested = as_segment(&root.blocks[1]);
    assert_eq!(nested.phdr.p_type, Phdr_type::NOTE);
    assert_eq!(nested.phdr.offset, 0x10);
    assert_eq!(as_raw(&nested.blocks[0]), &bin[0x20..0x60].to_vec());
    assert_eq!(as_section(&root.blocks[2]).hdr.offset, 0x18);
    // the children overlap, so the bytes of the tree are more than the segment's
    assert_eq!(tree[0].size(), 0x10 + 0x40 + 0x08);
}

#[test]
fn removed_section_headers_stay_removed_in_the_image() {
    // thirty section headers at 0xE000, each of a section inside the LOAD
    let mut bin = patterned(0xE000 + 30 * 64);
    put_header(&mut bin, 0x40, 1, 0xE000, 30, 0);
    put_phdr(&mut bin, 0x40, PT_LOAD, 0, 0xD000);
    for i in 0..30 {
        put_shdr(&mut bin, 0xE000 + i * 64, 0, SHT_PROGBITS, 0x1000 + (i as u64) * 0x100, 0x100);
    }
    let mut elf = Elf::parse(bin.clone()).unwrap();
    assert_eq!(generate_section_headers(&elf.blocks, 0).len(), 30);
    // written as it is, the image has its thirty headers behind the tree
    let with_table = Elf::parse(bin.clone()).unwrap().to_le();
    assert_eq!(with_table.len(), 0xD000 + 30 * 64);
    assert_eq!(with_table[0x28..0x30].to_vec(), 0xD000u64.to_le_bytes().to_vec());
    assert_eq!(with_table[0x3C..0x3E].to_vec(), 30u16.to_le_bytes().to_vec());
    remove_shdrs(&mut elf);
    let out = elf.to_le();
    assert_eq!(out[0x28..0x30].to_vec(), vec![0u8; 8]);
    assert_eq!(out[0x3A..0x3C].to_vec(), vec![0, 0]);
    assert_eq!(out[0x3C..0x3E].to_vec(), vec![0, 0]);
    assert_eq!(out[0x3E..0x40].to_vec(), vec![0, 0]);
    // nothing follows the bytes of the tree, which are those of the file
    assert_eq!(out.len(), 0xD000);
    assert_eq!(out[0x40..0xD000].to_vec(), bin[0x40..0xD000].to_vec());
    assert_eq!(out[0..0x28].to_vec(), bin[0..0x28].to_vec());
    // and what was written can be read again, without sections
    let again = Elf::parse(out).unwrap();
    assert_eq!(again.shdrs.len(), 0);
    assert_eq!(again.phdrs.len(), 1);
    assert_eq!(again.header.shdr_num, 0);
}

#[test]
fn stripped_image_can_be_read_again() {
    // what the stripping tool does: both edits, then writing out
    let mut elf = Elf::parse(dynamic_image()).unwrap();
    remove_shdrs(&mut elf);
    remove_ne_phdrs(&mut elf);
    let out = elf.to_le();
    assert_eq!(out.len(), 0x600);
    let again = Elf::parse(out).unwrap();
    assert_eq!(again.header.phdr_num, 5);
    assert_eq!(again.phdrs.len(), 5);
    assert_eq!(again.shdrs.len(), 0);
    assert_eq!(again.header.shdr_offset, 0);
}

fn count_blocks(blocks: &Vec<Block>, segments: &mut Vec<ProgramHeader>, origin: u64, sections: &mut Vec<(String, u64)>) {
    for b in blocks {
        match b {
            Block::Segment(s) => {
                let mut at_file = s.phdr;
                at_file.offset = origin + s.phdr.offset;
                segments.push(at_file);
                count_blocks(&s.blocks, segments, origin + s.phdr.offset, sections);
            },
            Block::Section(s) => sections.push((s.hdr.name.clone(), origin + s.hdr.offset)),
            _ => {},
        }
    }
}

#[test]
fn tree_holds_each_header_once_at_its_place() {
    let elf = Elf::parse(dynamic_image()).unwrap();
    let mut segments = Vec::new();
    let mut sections = Vec::new();
    count_blocks(&elf.blocks, &mut segments, 0, &mut sections);
    // every program header is in the tree once, with its file offset
    assert_eq!(segments.len(), elf.phdrs.len());
    for p in &elf.phdrs {
        assert_eq!(segments.iter().filter(|s| *s == p).count(), elf.phdrs.iter().filter(|q| *q == p).count());
    }
    // every section that a segment holds is in the tree once, at its file offset
    assert_eq!(sections.len(), 7);
    for h in &elf.shdrs {
        let times = sections.iter().filter(|(name, at)| *name == h.name && *at == h.offset).count();
        if h.name == ".shstrtab" {
            assert_eq!(times, 0);
        } else {
            assert_eq!(times, 1);
        }
    }
}

#[test]
fn roots_lie_outside_one_another_in_table_order() {
    let elf = Elf::parse(dynamic_image()).unwrap();
    let roots: Vec<ProgramHeader> = elf.blocks.iter().map(|b| as_segment(b).phdr).collect();
    // no root starts inside another
    for (i, a) in roots.iter().enumerate() {
        for (j, b) in roots.iter().enumerate() {
            if i != j {
                assert!(!(a.offset <= b.offset && b.offset < a.offset + a.filesz));
            }
        }
    }
    // the roots are headers of the table, in its order
    let mut next = 0;
    for r in &roots {
        while elf.phdrs[next] != *r {
            next += 1;
        }
        next += 1;
    }
    assert_eq!(roots, vec![elf.phdrs[2], elf.phdrs[3]]);
}
