use elf::block::{clone_blocks, get_elfhdr_inner, get_phdr_inner, pad, size, Block};
use elf::builder::{find_container, reversed};
use elf::phdr::{Phdr_type, ProgramHeader};
use elf::section::Section;
use elf::segment::{get_phdrs_blob, get_segments_size, phdrs_size, Segment};
use elf::shdr::{SectionHeader, Shdr_flags, Shdr_type};
use elf::ParsingError;
use std::cmp::Ordering;

fn phdr(p_type: Phdr_type, offset: u64, filesz: u64) -> ProgramHeader {
    ProgramHeader { p_type, flags: 4, offset, vaddr: 0, paddr: 0, filesz, memsz: filesz, p_align: 8 }
}

fn shdr(name: &str, offset: u64, size: u64) -> SectionHeader {
    SectionHeader {
        name: String::from(name),
        shstrndx_offset: 0,
        sh_type: Shdr_type::PROGBITS,
        flags: Shdr_flags::ALLOC,
        addr: 0,
        offset,
        size,
        link: 0,
        info: 0,
        addralign: 1,
        entsize: 0,
    }
}

fn segment(p_type: Phdr_type, offset: u64, filesz: u64, blocks: Vec<Block>) -> Block {
    Block::Segment(Segment { phdr: phdr(p_type, offset, filesz), blocks })
}

fn section(name: &str, offset: u64, content: Vec<u8>) -> Block {
    Block::Section(Section::from(shdr(name, offset, content.len() as u64), &content))
}

#[test]
fn blocks_flatten_in_order() {
    let tree = segment(
        Phdr_type::LOAD,
        0,
        9,
        vec![
            Block::RawDat(vec![1, 2]),
            segment(Phdr_type::NOTE, 2, 3, vec![section("n", 0, vec![3, 4, 5])]),
            Block::Padding(vec![0, 0]),
            section("t", 7, vec![8, 9]),
        ],
    );
    assert_eq!(tree.size(), 9);
    assert_eq!(tree.to_bin(), vec![1, 2, 3, 4, 5, 0, 0, 8, 9]);
    assert_eq!(Block::RawDat(vec![7, 7]).to_bin(), vec![7, 7]);
    assert_eq!(Block::Padding(vec![0]).to_bin(), vec![0]);
    assert_eq!(section("s", 0, vec![5, 6]).to_bin(), vec![5, 6]);
    assert_eq!(segment(Phdr_type::LOAD, 0, 10, vec![]).to_bin(), Vec::<u8>::new());
    assert_eq!(size(&vec![Block::RawDat(vec![1]), section("s", 0, vec![5, 6])]), 3);
    assert_eq!(size(&vec![]), 0);
}

#[test]
fn segment_and_section_builders() {
    let seg = Segment::from(vec![1, 2, 3], phdr(Phdr_type::LOAD, 5, 6), vec![shdr("x", 0, 0)]);
    assert_eq!(seg.phdr, phdr(Phdr_type::LOAD, 5, 6));
    assert_eq!(seg.blocks.len(), 0);
    assert_eq!(seg.to_le(), Vec::<u8>::new());
    let sec = Section::from(shdr(".data", 0x10, 3), &vec![1, 2, 3]);
    assert_eq!(sec.hdr.name, ".data");
    assert_eq!(sec.hdr.offset, 0x10);
    assert_eq!(sec.content, vec![1, 2, 3]);
    assert_eq!(sec.to_le(), vec![1, 2, 3]);
}

#[test]
fn segment_offset_and_containment() {
    let mut outer = Segment::from(vec![], phdr(Phdr_type::LOAD, 0x100, 0x100), vec![]);
    let at = |offset: u64| Segment::from(vec![], phdr(Phdr_type::NOTE, offset, 0x1000), vec![]);
    assert!(outer.contains(&at(0x100)));
    assert!(outer.contains(&at(0x1FF)));
    assert!(!outer.contains(&at(0x200)));
    assert!(!outer.contains(&at(0xFF)));
    outer.offset(0x180);
    assert_eq!(outer.phdr.offset, 0x180);
    assert_eq!(outer.phdr.filesz, 0x100);
    assert!(!outer.contains(&at(0x100)));
    assert!(outer.contains(&at(0x27F)));
    // an empty segment contains nothing, and no range wraps round
    let empty = Segment::from(vec![], phdr(Phdr_type::NULL, 0x100, 0), vec![]);
    assert!(!empty.contains(&at(0x100)));
    let top = Segment::from(vec![], phdr(Phdr_type::LOAD, u64::MAX - 1, 0x10), vec![]);
    assert!(top.contains(&at(u64::MAX)));
    assert!(!top.contains(&at(0)));
}

#[test]
fn block_accessors() {
    let mut seg = segment(Phdr_type::LOAD, 1, 2, vec![]);
    let mut raw = Block::RawDat(vec![1, 2, 3]);
    let mut sec = section("s", 0, vec![9]);
    let mut padding = Block::Padding(vec![0]);
    assert_eq!(seg.segment().unwrap().phdr.offset, 1);
    assert_eq!(raw.segment().err(), Some(ParsingError::ParsingError));
    assert_eq!(sec.segment().err(), Some(ParsingError::ParsingError));
    assert_eq!(raw.raw_dat(), Ok(&vec![1, 2, 3]));
    assert_eq!(seg.raw_dat().err(), Some(ParsingError::ParsingError));
    assert_eq!(padding.raw_dat().err(), Some(ParsingError::ParsingError));
    raw.raw_dat_mut().unwrap().push(4);
    assert_eq!(raw.to_bin(), vec![1, 2, 3, 4]);
    seg.segment_mut().unwrap().phdr.offset = 0x55;
    seg.segment_mut().unwrap().blocks.push(Block::RawDat(vec![6]));
    assert_eq!(seg.segment().unwrap().phdr.offset, 0x55);
    assert_eq!(seg.to_bin(), vec![6]);
    assert_eq!(sec.raw_dat_mut().err(), Some(ParsingError::ParsingError));
    assert_eq!(padding.segment_mut().err(), Some(ParsingError::ParsingError));
}

#[test]
fn blocks_compare_by_header_offset() {
    let seg10 = segment(Phdr_type::LOAD, 10, 1, vec![]);
    let seg20 = segment(Phdr_type::NOTE, 20, 99, vec![]);
    let sec10 = section("a", 10, vec![]);
    let sec15 = section("b", 15, vec![]);
    let raw = Block::RawDat(vec![]);
    let padding = Block::Padding(vec![]);
    assert_eq!(seg10.partial_cmp(&seg20), Some(Ordering::Less));
    assert_eq!(seg20.partial_cmp(&seg10), Some(Ordering::Greater));
    assert_eq!(seg10.partial_cmp(&sec10), Some(Ordering::Equal));
    assert_eq!(sec15.partial_cmp(&seg10), Some(Ordering::Greater));
    assert_eq!(sec10.partial_cmp(&sec15), Some(Ordering::Less));
    assert_eq!(raw.partial_cmp(&seg10), None);
    assert_eq!(seg10.partial_cmp(&raw), None);
    assert_eq!(padding.partial_cmp(&padding), None);
    assert!(seg10 < seg20);
    assert!(sec15 >= sec10);
    assert!(!(raw < seg10));
}

#[test]
fn only_segments_at_one_offset_are_equal() {
    let a = segment(Phdr_type::LOAD, 10, 1, vec![]);
    let b = segment(Phdr_type::NOTE, 10, 2, vec![Block::RawDat(vec![1])]);
    let c = segment(Phdr_type::LOAD, 11, 1, vec![]);
    assert!(a == b);
    assert!(a != c);
    assert!(section("s", 10, vec![]) != section("s", 10, vec![]));
    assert!(a != section("s", 10, vec![]));
    assert!(Block::RawDat(vec![1]) != Block::RawDat(vec![1]));
}

#[test]
fn program_header_bytes_in_the_tree() {
    let mut tree = vec![
        segment(
            Phdr_type::LOAD,
            0,
            0x100,
            vec![
                Block::RawDat(vec![0xE1, 0xE2]),
                segment(Phdr_type::NOTE, 2, 2, vec![section(".note", 0, vec![7, 7])]),
                segment(Phdr_type::PHDR, 4, 3, vec![Block::RawDat(vec![1, 2, 3])]),
            ],
        ),
        segment(Phdr_type::PHDR, 0x100, 1, vec![Block::RawDat(vec![9])]),
    ];
    assert_eq!(get_phdr_inner(&mut tree), Ok(&mut vec![1, 2, 3]));
    assert_eq!(get_elfhdr_inner(&mut tree), Ok(&mut vec![0xE1, 0xE2]));
    // what is handed out is the tree's own: changes show in the tree
    get_phdr_inner(&mut tree).unwrap()[1] = 0x22;
    get_elfhdr_inner(&mut tree).unwrap().push(0xE3);
    let mut flat = Vec::new();
    for b in clone_blocks(&tree) {
        flat.extend(b.to_bin());
    }
    assert_eq!(flat, vec![0xE1, 0xE2, 0xE3, 7, 7, 1, 0x22, 3, 9]);
}

#[test]
fn program_header_bytes_missing() {
    let mut no_phdr = vec![segment(Phdr_type::LOAD, 0, 4, vec![section("s", 0, vec![1])])];
    assert_eq!(get_phdr_inner(&mut no_phdr).err(), Some(ParsingError::ParsingError));
    assert_eq!(get_elfhdr_inner(&mut no_phdr).err(), Some(ParsingError::ParsingError));
    let mut empty_phdr = vec![
        segment(Phdr_type::PHDR, 0, 4, vec![]),
        segment(Phdr_type::PHDR, 0, 4, vec![Block::RawDat(vec![1])]),
    ];
    assert_eq!(get_phdr_inner(&mut empty_phdr).err(), Some(ParsingError::ParsingError));
    let mut section_first = vec![segment(
        Phdr_type::PHDR,
        0,
        4,
        vec![section("s", 0, vec![1]), Block::RawDat(vec![2])],
    )];
    assert_eq!(get_phdr_inner(&mut section_first).err(), Some(ParsingError::ParsingError));
    assert_eq!(get_elfhdr_inner(&mut section_first), Ok(&mut vec![2]));
    assert_eq!(get_phdr_inner(&mut vec![]).err(), Some(ParsingError::ParsingError));
    assert_eq!(get_elfhdr_inner(&mut vec![]).err(), Some(ParsingError::ParsingError));
    assert_eq!(
        get_elfhdr_inner(&mut vec![Block::RawDat(vec![1])]).err(),
        Some(ParsingError::ParsingError)
    );
    // a PHDR segment that is no root is found behind the roots before it
    let mut nested = vec![
        Block::RawDat(vec![5]),
        segment(
            Phdr_type::LOAD,
            0,
            4,
            vec![
                Block::Padding(vec![0]),
                segment(Phdr_type::NOTE, 0, 4, vec![]),
                segment(Phdr_type::PHDR, 0, 4, vec![Block::RawDat(vec![4, 4])]),
            ],
        ),
    ];
    assert_eq!(get_phdr_inner(&mut nested), Ok(&mut vec![4, 4]));
    // a failure leaves the tree as it was
    assert_eq!(size(&no_phdr), 1);
    assert_eq!(size(&section_first), 2);
}

#[test]
fn program_header_table_of_segments() {
    let segments = vec![
        Segment::from(vec![], phdr(Phdr_type::LOAD, 0x10, 0x20), vec![]),
        Segment::from(vec![], phdr(Phdr_type::NOTE, 0x30, 0x08), vec![]),
    ];
    let blob = get_phdrs_blob(&segments, 0x1000);
    assert_eq!(blob.len(), 112);
    assert_eq!(phdrs_size(&segments), 112);
    assert_eq!(blob[0..56].to_vec(), phdr(Phdr_type::LOAD, 0x1010, 0x20).to_le());
    assert_eq!(blob[56..112].to_vec(), phdr(Phdr_type::NOTE, 0x1030, 0x08).to_le());
    assert_eq!(get_phdrs_blob(&vec![], 5), Vec::<u8>::new());
    assert_eq!(phdrs_size(&vec![]), 0);
}

#[test]
fn padded_segment_sizes() {
    // alignment 8: 0x20 is padded by a whole 8, 0x0B by 5
    let segments = vec![
        Segment::from(vec![], phdr(Phdr_type::LOAD, 0, 0x20), vec![]),
        Segment::from(vec![], phdr(Phdr_type::LOAD, 0, 0x0B), vec![]),
    ];
    assert_eq!(get_segments_size(&segments), 0x28 + 0x10);
    assert_eq!(get_segments_size(&vec![]), 0);
}

#[test]
fn padding_is_zero_bytes() {
    assert_eq!(pad(0), Vec::<u8>::new());
    assert_eq!(pad(5), vec![0, 0, 0, 0, 0]);
    assert_eq!(Block::Padding(pad(3)).size(), 3);
}

#[test]
fn copies_are_deep() {
    let tree = segment(
        Phdr_type::LOAD,
        0,
        5,
        vec![
            Block::RawDat(vec![1, 2]),
            segment(Phdr_type::NOTE, 2, 2, vec![section("n", 0, vec![3, 4])]),
            Block::Padding(vec![0]),
        ],
    );
    let mut copy = tree.clone();
    assert_eq!(copy.size(), 5);
    let copied = copy.segment().unwrap();
    assert_eq!(copied.phdr, phdr(Phdr_type::LOAD, 0, 5));
    assert_eq!(copied.blocks.len(), 3);
    assert_eq!(copied.blocks[1].segment().unwrap().phdr.p_type, Phdr_type::NOTE);
    match &copied.blocks[1].segment().unwrap().blocks[0] {
        Block::Section(s) => {
            assert_eq!(s.hdr.name, "n");
            assert_eq!(s.content, vec![3, 4]);
        },
        _ => panic!("not a section"),
    }
    // changing the copy leaves what it was made from alone
    copy.segment_mut().unwrap().blocks[0].raw_dat_mut().unwrap().push(9);
    assert_eq!(copy.to_bin(), vec![1, 2, 9, 3, 4, 0]);
    assert_eq!(tree.to_bin(), vec![1, 2, 3, 4, 0]);
    let list = vec![Block::RawDat(vec![1]), Block::Padding(vec![0, 0])];
    let copies = clone_blocks(&list);
    assert_eq!(copies.len(), 2);
    assert_eq!(size(&copies), 3);
    let seg = Segment::from(vec![], phdr(Phdr_type::TLS, 7, 8), vec![]);
    assert_eq!(seg.clone().phdr, seg.phdr);
    let sec = Section::from(shdr("s", 1, 2), &vec![5, 6]);
    let sec2 = sec.clone();
    assert_eq!(sec2.hdr.name, "s");
    assert_eq!(sec2.hdr.offset, 1);
    assert_eq!(sec2.content, vec![5, 6]);
}

#[test]
fn lists_are_turned_round() {
    let list = vec![Block::RawDat(vec![1]), Block::RawDat(vec![2]), Block::RawDat(vec![3])];
    let back = reversed(list);
    assert_eq!(back.len(), 3);
    assert_eq!(back[0].raw_dat(), Ok(&vec![3]));
    assert_eq!(back[1].raw_dat(), Ok(&vec![2]));
    assert_eq!(back[2].raw_dat(), Ok(&vec![1]));
    assert_eq!(reversed(vec![]).len(), 0);
}

#[test]
fn first_container_is_found() {
    let roots = vec![
        Block::RawDat(vec![0; 0x100]),
        segment(Phdr_type::LOAD, 0x100, 0x100, vec![]),
        segment(Phdr_type::LOAD, 0x0, 0x200, vec![]),
        segment(Phdr_type::LOAD, 0x180, 0x10, vec![]),
    ];
    let at = |offset: u64| segment(Phdr_type::NOTE, offset, 4, vec![]);
    assert_eq!(find_container(&roots, &at(0x180)), Some(1));
    assert_eq!(find_container(&roots, &at(0x80)), Some(2));
    assert_eq!(find_container(&roots, &at(0x200)), None);
    assert_eq!(find_container(&roots, &at(0x1FF)), Some(1));
    // only a segment is ever contained
    assert_eq!(find_container(&roots, &section("s", 0x180, vec![])), None);
    assert_eq!(find_container(&roots, &Block::RawDat(vec![])), None);
    assert_eq!(find_container(&vec![], &at(0)), None);
}
