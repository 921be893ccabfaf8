//! What survives writing a parsed image out and reading it again.

use crate::block::{
    block_headers, flat, flat_all, flat_upto, headers_upto, spec_generate_section_headers,
    BlockView,
};
use crate::builder::{
    can_fill, filled, footprint, nested_roots, offset_key, section_in_file, sections_in_file,
    spec_into_blocks, tree_ok,
};
use crate::bytes::lemma_table_entry;
use crate::coverage::{lemma_tree_covers_file, roots_abut, roots_end, roots_well_laid};
use crate::elf::{
    emitted_body, emitted_header, emitted_table, spec_parse, spec_parse_error, spec_to_le,
    table_bytes,
};
use crate::header::{
    hdr_phdr_num, hdr_phdr_offset, hdr_phdr_size, hdr_shdr_num, hdr_shdr_offset, hdr_shdr_size,
    hdr_shstrndx, is_readable_header, lemma_header_bytes_layout, lemma_header_round_trip,
    spec_header, spec_header_bytes, spec_header_error,
};
use crate::layout::{lemma_fill_stays_inside, well_laid};
use crate::narrowest::lemma_filled_blocks;
use crate::phdr::{phdr_entry, phdr_table_ok, spec_program_headers, ProgramHeader};
use crate::placement::{in_place, lemma_nested_roots_in_place};
use crate::shape::{
    lemma_can_fill_same_shape, lemma_nested_roots_same_shape, lemma_same_shape_keys,
    lemma_tree_shape_is_of_headers, same_shape, same_shapes,
};
use crate::shdr::{
    has_names, lemma_read_codes_round_trip, lemma_section_header_round_trip, name_index, name_ok,
    names_ok, section_header_at, section_name, shdr_entry, shdr_table_ok, spec_section_headers,
    strtab_offset, strtab_size, SectionHeaderView,
};
use vstd::prelude::*;

verus! {

/// The roots of the tree of `bin` before their gaps are filled.
pub open spec fn roots_of(bin: Seq<u8>) -> Seq<BlockView> {
    nested_roots(spec_program_headers(bin), spec_section_headers(bin, hdr_shstrndx(bin)), bin)
}

/// The file position at which the last outermost segment of `bin` ends.
pub open spec fn segments_end(bin: Seq<u8>) -> int {
    roots_end(roots_of(bin), roots_of(bin).len())
}

/// Whether the segments of the image `bin` tile it from its first byte on:
/// `bin` can be parsed, in each of its segments the children lie inside
/// the segment without overlap, the outermost segments follow one another
/// from position 0, and they cover the file header and the whole
/// program-header table, which lies behind the file header.
pub open spec fn is_tiled(bin: Seq<u8>) -> bool {
    &&& spec_parse_error(bin) is None
    &&& roots_well_laid(roots_of(bin))
    &&& roots_abut(roots_of(bin))
    &&& roots_end(roots_of(bin), 0) == 0
    &&& segments_end(bin) >= 0x40
    &&& hdr_phdr_offset(bin) >= 0x40
    &&& hdr_phdr_offset(bin) + hdr_phdr_num(bin) * hdr_phdr_size(bin) <= segments_end(bin)
}

/// The header that parsing gives can be read back from its bytes.
pub proof fn lemma_parsed_header_is_readable(bin: Seq<u8>)
    requires
        spec_header_error(bin) is None,
    ensures
        is_readable_header(spec_header(bin)),
{
}

/// The image written out for a tiled file has the bytes of the file from
/// the end of the file header to the end of the last outermost segment.
pub proof fn lemma_emitted_image_keeps_segments(bin: Seq<u8>)
    requires
        is_tiled(bin),
    ensures
        spec_to_le(spec_parse(bin)).len() >= segments_end(bin),
        segments_end(bin) <= bin.len(),
        forall|i: int|
            0x40 <= i < segments_end(bin) ==> #[trigger] spec_to_le(spec_parse(bin))[i] == bin[i],
        spec_to_le(spec_parse(bin)) == spec_header_bytes(emitted_header(spec_parse(bin)))
            + emitted_body(spec_parse(bin)),
        spec_header_bytes(emitted_header(spec_parse(bin))).len() == 0x40,
{
    let e = spec_parse(bin);
    let end = segments_end(bin);
    lemma_tree_covers_file(bin);
    let flat = flat_all(e.blocks);
    assert(flat == bin.subrange(0, end));
    let table = emitted_table(e);
    let body = flat + table_bytes(table, table.len());
    lemma_parsed_header_is_readable(bin);
    lemma_header_bytes_layout(emitted_header(e));
    let hb = spec_header_bytes(emitted_header(e));
    let out = spec_to_le(e);
    if body.len() <= 0x40 {
        assert(emitted_body(e) =~= body.skip(0x40));
    }
    assert(out == hb + body.skip(0x40));
    assert forall|i: int| 0x40 <= i < end implies #[trigger] out[i] == bin[i] by {
        assert(out[i] == body.skip(0x40)[i - 0x40]);
        assert(body[i] == flat[i]);
    }
}

/// Writing a tiled image out and reading it again gives the file header
/// that was written and the program headers that were parsed.
pub proof fn lemma_round_trip_keeps_program_headers(bin: Seq<u8>)
    requires
        is_tiled(bin),
    ensures
        spec_header_error(spec_to_le(spec_parse(bin))) is None,
        spec_header(spec_to_le(spec_parse(bin))) == emitted_header(spec_parse(bin)),
        phdr_table_ok(spec_to_le(spec_parse(bin))),
        spec_program_headers(spec_to_le(spec_parse(bin))) == spec_program_headers(bin),
{
    let e = spec_parse(bin);
    let out = spec_to_le(e);
    let end = segments_end(bin);
    lemma_emitted_image_keeps_segments(bin);
    lemma_parsed_header_is_readable(bin);
    lemma_header_round_trip(emitted_header(e), emitted_body(e));
    let off = hdr_phdr_offset(bin) as int;
    let size = hdr_phdr_size(bin) as int;
    let num = hdr_phdr_num(bin) as int;
    assert(hdr_phdr_offset(out) == off && hdr_phdr_size(out) == size && hdr_phdr_num(out) == num);
    assert(phdr_table_ok(bin));
    assert forall|i: int| 0 <= i < num implies phdr_entry(out, i) == phdr_entry(bin, i) by {
        lemma_table_entry(off, size, i, num, end);
        assert(phdr_entry(out, i) =~= phdr_entry(bin, i));
    }
    assert(spec_program_headers(out) =~= spec_program_headers(bin));
}

/// The section headers of `bin`, as parsing names and gives them.
pub open spec fn sections_of_image(bin: Seq<u8>) -> Seq<SectionHeaderView> {
    spec_section_headers(bin, hdr_shstrndx(bin))
}

/// Whether the tree of the image `bin` holds its whole section-header
/// table: the table made from the tree is the table that was parsed, entry
/// by entry, with the offsets that the file gives; the entries of the
/// table in the file are 64 bytes wide; the string table that names the
/// sections, where there is one, lies in the segments behind the file
/// header; and the file is no longer than a 64-bit offset can say.
pub open spec fn keeps_sections(bin: Seq<u8>) -> bool {
    &&& spec_generate_section_headers(spec_into_blocks(bin), 0) == sections_of_image(bin)
    &&& hdr_shdr_size(bin) == 0x40
    &&& bin.len() <= u64::MAX
    &&& has_names(bin, hdr_shstrndx(bin)) ==> 0x40 <= strtab_offset(bin, hdr_shstrndx(bin))
        && strtab_offset(bin, hdr_shstrndx(bin)) + strtab_size(bin, hdr_shstrndx(bin))
        <= segments_end(bin)
}

/// The bytes written for a table of section headers hold the bytes of
/// entry `i` at 64 times `i`.
pub proof fn lemma_table_bytes_entry(table: Seq<SectionHeaderView>, n: nat, i: int)
    requires
        n <= table.len(),
        0 <= i < n,
    ensures
        table_bytes(table, n).len() == 0x40 * n,
        table_bytes(table, n).subrange(0x40 * i, 0x40 * i + 0x40) == table[i].spec_to_le_offset(0),
    decreases n,
{
    lemma_table_bytes_len(table, (n - 1) as nat);
    lemma_section_header_round_trip(table[n - 1]);
    let prev = table_bytes(table, (n - 1) as nat);
    let last = table[n - 1].spec_to_le_offset(0);
    if i < n - 1 {
        lemma_table_bytes_entry(table, (n - 1) as nat, i);
        assert((prev + last).subrange(0x40 * i, 0x40 * i + 0x40) =~= prev.subrange(
            0x40 * i,
            0x40 * i + 0x40,
        ));
    } else {
        assert((prev + last).subrange(0x40 * i, 0x40 * i + 0x40) =~= last);
    }
}

/// The bytes written for a table of `n` section headers are 64 times `n`.
pub proof fn lemma_table_bytes_len(table: Seq<SectionHeaderView>, n: nat)
    requires
        n <= table.len(),
    ensures
        table_bytes(table, n).len() == 0x40 * n,
    decreases n,
{
    if n > 0 {
        lemma_table_bytes_len(table, (n - 1) as nat);
        lemma_section_header_round_trip(table[n - 1]);
    }
}

/// A section header that was parsed comes back from the bytes written for
/// it, under whatever name it is read.
pub proof fn lemma_parsed_section_header_round_trip(entry: Seq<u8>, name: Seq<char>, again: Seq<char>)
    ensures
        SectionHeaderView::spec_parse(
            SectionHeaderView::spec_parse(entry, name).spec_to_le_offset(0),
            again,
        ) == (SectionHeaderView { name: again, ..SectionHeaderView::spec_parse(entry, name) }),
{
    let h = SectionHeaderView::spec_parse(entry, name);
    lemma_section_header_round_trip(h);
    lemma_read_codes_round_trip(
        crate::bytes::le_u32(entry.subrange(0x04, 0x08)),
        crate::bytes::le_u32(entry.subrange(0x08, 0x10)),
    );
}

/// The image written out for a tiled file whose tree holds its whole
/// section-header table is the file header, then the bytes of the segments
/// behind the first 64, then the bytes of the section headers that were
/// parsed.
pub proof fn lemma_emitted_image_parts(bin: Seq<u8>)
    requires
        is_tiled(bin),
        keeps_sections(bin),
    ensures
        spec_to_le(spec_parse(bin)).len() == segments_end(bin) + 0x40 * hdr_shdr_num(bin),
        table_bytes(sections_of_image(bin), sections_of_image(bin).len()).len() == 0x40
            * hdr_shdr_num(bin),
        forall|k: int|
            0 <= k < 0x40 * hdr_shdr_num(bin) ==> #[trigger] spec_to_le(spec_parse(bin))[segments_end(
                bin,
            ) + k] == table_bytes(sections_of_image(bin), sections_of_image(bin).len())[k],
        emitted_header(spec_parse(bin)).shdr_offset == segments_end(bin),
        emitted_header(spec_parse(bin)).shdr_num == hdr_shdr_num(bin),
{
    let e = spec_parse(bin);
    let out = spec_to_le(e);
    let end = segments_end(bin);
    let table = sections_of_image(bin);
    let num = hdr_shdr_num(bin) as int;
    lemma_emitted_image_keeps_segments(bin);
    lemma_tree_covers_file(bin);
    let flat = flat_all(e.blocks);
    assert(flat.len() == end);
    assert(table.len() == num);
    lemma_table_bytes_len(table, table.len());
    let tb = table_bytes(table, table.len());
    let body = flat + tb;
    let hb = spec_header_bytes(emitted_header(e));
    assert(out == hb + body.skip(0x40)) by {
        if body.len() <= 0x40 {
            assert(emitted_body(e) =~= body.skip(0x40));
        }
    }
    assert forall|k: int| 0 <= k < 0x40 * num implies #[trigger] out[end + k] == tb[k] by {
        assert(out[end + k] == body.skip(0x40)[end + k - 0x40]);
        assert(body[end + k] == tb[k]);
    }
}

/// Where the image written out for a tiled file has its section-header
/// table: behind the bytes of the segments, entry by entry the bytes of the
/// section headers that were parsed.
pub proof fn lemma_emitted_table_layout(bin: Seq<u8>)
    requires
        is_tiled(bin),
        keeps_sections(bin),
    ensures
        spec_to_le(spec_parse(bin)).len() == segments_end(bin) + 0x40 * hdr_shdr_num(bin),
        hdr_shdr_offset(spec_to_le(spec_parse(bin))) == segments_end(bin),
        hdr_shdr_num(spec_to_le(spec_parse(bin))) == hdr_shdr_num(bin),
        hdr_shdr_size(spec_to_le(spec_parse(bin))) == 0x40,
        hdr_shstrndx(spec_to_le(spec_parse(bin))) == hdr_shstrndx(bin),
        forall|i: int|
            0 <= i < hdr_shdr_num(bin) ==> #[trigger] shdr_entry(spec_to_le(spec_parse(bin)), i)
                == sections_of_image(bin)[i].spec_to_le_offset(0),
{
    let out = spec_to_le(spec_parse(bin));
    let end = segments_end(bin);
    let table = sections_of_image(bin);
    let num = hdr_shdr_num(bin) as int;
    lemma_emitted_image_parts(bin);
    lemma_emitted_section_fields(bin);
    assert forall|i: int| 0 <= i < num implies #[trigger] shdr_entry(out, i)
        == table[i].spec_to_le_offset(0) by {
        lemma_emitted_entry(bin, i);
        assert(shdr_entry(out, i) == out.subrange(end + 0x40 * i, end + 0x40 * (i + 1)));
    }
}

/// What the header of the image written out for a tiled file says of its
/// section-header table: it starts where the segments end, and has as many
/// entries, of the same width, and the same name section, as the table that
/// was parsed.
pub proof fn lemma_emitted_section_fields(bin: Seq<u8>)
    requires
        is_tiled(bin),
        keeps_sections(bin),
    ensures
        hdr_shdr_offset(spec_to_le(spec_parse(bin))) == segments_end(bin),
        hdr_shdr_num(spec_to_le(spec_parse(bin))) == hdr_shdr_num(bin),
        hdr_shdr_size(spec_to_le(spec_parse(bin))) == 0x40,
        hdr_shstrndx(spec_to_le(spec_parse(bin))) == hdr_shstrndx(bin),
{
    let e = spec_parse(bin);
    let out = spec_to_le(e);
    lemma_emitted_image_parts(bin);
    lemma_round_trip_keeps_program_headers(bin);
    let h = spec_header(out);
    assert(h == emitted_header(e));
    assert(h.shdr_offset == segments_end(bin));
    assert(h.shdr_num == hdr_shdr_num(bin));
    assert(h.shdr_size == 0x40);
    assert(h.shstrndx == hdr_shstrndx(bin));
}

/// Entry `i` of the section-header table of the image written out for a
/// tiled file is the bytes of section header `i` as it was parsed.
pub proof fn lemma_emitted_entry(bin: Seq<u8>, i: int)
    requires
        is_tiled(bin),
        keeps_sections(bin),
        0 <= i < hdr_shdr_num(bin),
    ensures
        spec_to_le(spec_parse(bin)).subrange(
            segments_end(bin) + 0x40 * i,
            segments_end(bin) + 0x40 * (i + 1),
        ) == sections_of_image(bin)[i].spec_to_le_offset(0),
{
    let out = spec_to_le(spec_parse(bin));
    let end = segments_end(bin);
    let table = sections_of_image(bin);
    lemma_emitted_image_parts(bin);
    let tb = table_bytes(table, table.len());
    lemma_table_bytes_entry(table, table.len(), i);
    let piece = tb.subrange(0x40 * i, 0x40 * i + 0x40);
    let entry = out.subrange(end + 0x40 * i, end + 0x40 * (i + 1));
    assert forall|k: int| 0 <= k < 0x40 implies #[trigger] entry[k] == piece[k] by {
        assert(out[end + (0x40 * i + k)] == tb[0x40 * i + k]);
    }
    assert(entry =~= piece);
}

/// The bytes written for a section header that was parsed hold the name
/// index, the offset and the size that the parsed bytes held.
pub proof fn lemma_entry_fields_survive(entry: Seq<u8>, name: Seq<char>)
    ensures
        ({
            let again = SectionHeaderView::spec_parse(entry, name).spec_to_le_offset(0);
            &&& crate::bytes::le_u32(again.subrange(0x00, 0x04)) == crate::bytes::le_u32(
                entry.subrange(0x00, 0x04),
            )
            &&& crate::bytes::le_u64(again.subrange(0x18, 0x20)) == crate::bytes::le_u64(
                entry.subrange(0x18, 0x20),
            )
            &&& crate::bytes::le_u64(again.subrange(0x20, 0x28)) == crate::bytes::le_u64(
                entry.subrange(0x20, 0x28),
            )
        }),
{
    let h = SectionHeaderView::spec_parse(entry, name);
    let again = h.spec_to_le_offset(0);
    lemma_parsed_section_header_round_trip(entry, name, name);
    let back = SectionHeaderView::spec_parse(again, name);
    assert(back.shstrndx_offset == h.shstrndx_offset);
    assert(back.offset == h.offset);
    assert(back.size == h.size);
}

/// In the image written out for a tiled file whose tree holds its whole
/// section-header table, each entry of the table holds the name index that
/// it held, and the string table is where it was and as long.
pub proof fn lemma_emitted_name_fields(bin: Seq<u8>, i: int)
    requires
        is_tiled(bin),
        keeps_sections(bin),
        0 <= i < hdr_shdr_num(bin),
    ensures
        name_index(spec_to_le(spec_parse(bin)), i) == name_index(bin, i),
        has_names(spec_to_le(spec_parse(bin)), hdr_shstrndx(bin)) == has_names(
            bin,
            hdr_shstrndx(bin),
        ),
        has_names(bin, hdr_shstrndx(bin)) ==> strtab_offset(
            spec_to_le(spec_parse(bin)),
            hdr_shstrndx(bin),
        ) == strtab_offset(bin, hdr_shstrndx(bin)) && strtab_size(
            spec_to_le(spec_parse(bin)),
            hdr_shstrndx(bin),
        ) == strtab_size(bin, hdr_shstrndx(bin)),
{
    let out = spec_to_le(spec_parse(bin));
    let x = hdr_shstrndx(bin);
    let table = sections_of_image(bin);
    lemma_emitted_table_layout(bin);
    assert(table[i] == section_header_at(bin, x, i));
    lemma_entry_fields_survive(shdr_entry(bin, i), section_name(bin, x, i));
    assert(shdr_entry(out, i) == table[i].spec_to_le_offset(0));
    if has_names(bin, x) {
        assert(table[x as int] == section_header_at(bin, x, x as int));
        lemma_entry_fields_survive(shdr_entry(bin, x as int), section_name(bin, x, x as int));
        assert(shdr_entry(out, x as int) == table[x as int].spec_to_le_offset(0));
    }
}

/// In the image written out for a tiled file whose tree holds its whole
/// section-header table, each section has the name that it had.
pub proof fn lemma_emitted_names(bin: Seq<u8>, i: int)
    requires
        is_tiled(bin),
        keeps_sections(bin),
        0 <= i < hdr_shdr_num(bin),
    ensures
        has_names(spec_to_le(spec_parse(bin)), hdr_shstrndx(bin)) == has_names(
            bin,
            hdr_shstrndx(bin),
        ),
        has_names(bin, hdr_shstrndx(bin)) ==> strtab_offset(
            spec_to_le(spec_parse(bin)),
            hdr_shstrndx(bin),
        ) + strtab_size(spec_to_le(spec_parse(bin)), hdr_shstrndx(bin)) <= spec_to_le(
            spec_parse(bin),
        ).len(),
        has_names(bin, hdr_shstrndx(bin)) ==> name_ok(
            spec_to_le(spec_parse(bin)),
            hdr_shstrndx(bin),
            i,
        ),
        section_name(spec_to_le(spec_parse(bin)), hdr_shstrndx(bin), i) == section_name(
            bin,
            hdr_shstrndx(bin),
            i,
        ),
{
    let out = spec_to_le(spec_parse(bin));
    let x = hdr_shstrndx(bin);
    lemma_emitted_name_fields(bin, i);
    lemma_emitted_image_keeps_segments(bin);
    assert(names_ok(bin, x));
    if has_names(bin, x) {
        let so = strtab_offset(bin, x) as int;
        let ssz = strtab_size(bin, x) as int;
        assert(name_ok(bin, x, i));
        let idx = name_index(bin, i) as int;
        let from_out = out.subrange(so + idx, so + ssz);
        let from_bin = bin.subrange(so + idx, so + ssz);
        assert(from_out.len() == from_bin.len());
        assert forall|k: int| 0 <= k < from_out.len() implies #[trigger] from_out[k]
            == from_bin[k] by {
            assert(out[so + idx + k] == bin[so + idx + k]);
        }
        assert(from_out =~= from_bin);
    }
}

/// Writing out a tiled image whose tree holds its whole section-header
/// table, and reading the result again, gives the section headers that
/// were parsed, with their names and their offsets.
pub proof fn lemma_round_trip_keeps_section_headers(bin: Seq<u8>)
    requires
        is_tiled(bin),
        keeps_sections(bin),
    ensures
        hdr_shstrndx(spec_to_le(spec_parse(bin))) == hdr_shstrndx(bin),
        shdr_table_ok(spec_to_le(spec_parse(bin))),
        names_ok(spec_to_le(spec_parse(bin)), hdr_shstrndx(bin)),
        sections_of_image(spec_to_le(spec_parse(bin))) == sections_of_image(bin),
{
    let out = spec_to_le(spec_parse(bin));
    let x = hdr_shstrndx(bin);
    let table = sections_of_image(bin);
    let num = hdr_shdr_num(bin) as int;
    lemma_emitted_table_layout(bin);
    assert forall|i: int| 0 <= i < num implies #[trigger] name_ok(out, x, i) || !has_names(
        out,
        x,
    ) by {
        lemma_emitted_names(bin, i);
    }
    if num > 0 {
        lemma_emitted_names(bin, 0);
    }
    assert forall|i: int| 0 <= i < num implies section_header_at(out, x, i) == table[i] by {
        lemma_emitted_names(bin, i);
        assert(table[i] == section_header_at(bin, x, i));
        lemma_parsed_section_header_round_trip(
            shdr_entry(bin, i),
            section_name(bin, x, i),
            section_name(out, x, i),
        );
        assert(shdr_entry(out, i) == table[i].spec_to_le_offset(0));
    }
    assert(sections_of_image(out) =~= table);
}

/// Whether every section in the block `b` that takes room in the file holds
/// as many bytes as its header says.
pub open spec fn sections_sized(b: BlockView) -> bool
    decreases b,
{
    match b {
        BlockView::Segment(s) => forall|k: int|
            0 <= k < s.blocks.len() ==> sections_sized(#[trigger] s.blocks[k]),
        BlockView::Section(s) => s.hdr.is_nobits() || s.content.len() == s.hdr.size,
        _ => true,
    }
}

/// Whether every section in `blocks` that takes room in the file holds as
/// many bytes as its header says.
pub open spec fn all_sections_sized(blocks: Seq<BlockView>) -> bool {
    forall|k: int| 0 <= k < blocks.len() ==> sections_sized(#[trigger] blocks[k])
}

/// In a block that is in its place, every section that takes room in the
/// file holds as many bytes as its header says.
pub proof fn lemma_in_place_is_sized(
    b: BlockView,
    origin: int,
    phdrs: Seq<ProgramHeader>,
    bin: Seq<u8>,
)
    requires
        in_place(b, origin, phdrs, bin),
    ensures
        sections_sized(b),
    decreases b,
{
    let s = b->Segment_0;
    assert forall|k: int| 0 <= k < s.blocks.len() implies sections_sized(#[trigger] s.blocks[k]) by {
        let c = s.blocks[k];
        match c {
            BlockView::Segment(cs) => {
                lemma_in_place_is_sized(c, origin + cs.phdr.offset, phdrs, bin);
            },
            _ => {},
        }
    }
}

/// Filling the gaps of a block changes no section.
pub proof fn lemma_filled_is_sized(b: BlockView, bin: Seq<u8>, origin: int)
    requires
        sections_sized(b),
    ensures
        sections_sized(filled(b, bin, origin)),
    decreases b,
{
    match b {
        BlockView::Segment(s) => {
            let f = filled(b, bin, origin)->Segment_0;
            {
                assert forall|j: int| 0 <= j < f.blocks.len() implies sections_sized(
                    #[trigger] f.blocks[j],
                ) by {
                    let k = lemma_filled_blocks(s, bin, origin, j);
                    if !(f.blocks[j] is RawDat) {
                        lemma_filled_is_sized(s.blocks[k], bin, origin + offset_key(s.blocks[k]));
                    }
                }
            }
        },
        _ => {},
    }
}

/// Each header made from the first `n` of `blocks` speaks of bytes that lie
/// in what those blocks flatten to, unless it is of a section that takes no
/// room in the file.
pub proof fn lemma_headers_lie_in_tree(blocks: Seq<BlockView>, offset: int, n: nat, j: int)
    requires
        0 <= offset,
        n <= blocks.len(),
        all_sections_sized(blocks),
        offset + flat_upto(blocks, n).len() <= u64::MAX,
        0 <= j < headers_upto(blocks, offset, n).len(),
    ensures
        headers_upto(blocks, offset, n)[j].is_nobits() || headers_upto(blocks, offset, n)[j].offset
            + headers_upto(blocks, offset, n)[j].size <= offset + flat_upto(blocks, n).len(),
    decreases blocks, n,
{
    let prev = headers_upto(blocks, offset, (n - 1) as nat);
    let before = flat_upto(blocks, (n - 1) as nat).len();
    if j < prev.len() {
        lemma_headers_lie_in_tree(blocks, offset, (n - 1) as nat, j);
    } else {
        let b = blocks[n - 1];
        assert(sections_sized(b));
        lemma_block_headers_lie_in_block(b, offset + before, j - prev.len());
    }
}

/// Each header made from the block `b` speaks of bytes that lie in what
/// `b` flattens to, unless it is of a section that takes no room in the
/// file.
pub proof fn lemma_block_headers_lie_in_block(b: BlockView, offset: int, j: int)
    requires
        0 <= offset,
        sections_sized(b),
        offset + flat(b).len() <= u64::MAX,
        0 <= j < block_headers(b, offset).len(),
    ensures
        block_headers(b, offset)[j].is_nobits() || block_headers(b, offset)[j].offset
            + block_headers(b, offset)[j].size <= offset + flat(b).len(),
    decreases b, 0nat,
{
    match b {
        BlockView::Segment(s) => {
            assert forall|k: int| 0 <= k < s.blocks.len() implies sections_sized(
                #[trigger] s.blocks[k],
            ) by {}
            lemma_headers_lie_in_tree(s.blocks, offset, s.blocks.len(), j);
        },
        _ => {},
    }
}

/// The outermost segments of a tiled image end in the order in which they
/// stand: each at or before the end of the last.
pub proof fn lemma_roots_end_in_order(roots: Seq<BlockView>, i: nat, n: nat)
    requires
        roots_abut(roots),
        i <= n <= roots.len(),
    ensures
        roots_end(roots, i) <= roots_end(roots, n),
    decreases n,
{
    if i < n {
        lemma_roots_end_in_order(roots, i, (n - 1) as nat);
        assert(footprint(roots[n - 1]) >= 0);
        if n > 1 {
            assert(offset_key(roots[n - 1]) == offset_key(roots[n - 2]) + footprint(roots[n - 2]));
        }
    }
}

/// The tree of the image written out for a tiled file whose tree holds its
/// whole section-header table can be built.
pub proof fn lemma_emitted_tree_can_be_built(bin: Seq<u8>)
    requires
        is_tiled(bin),
        keeps_sections(bin),
    ensures
        tree_ok(spec_program_headers(bin), sections_of_image(bin), spec_to_le(spec_parse(bin))),
{
    let phdrs = spec_program_headers(bin);
    let shdrs = sections_of_image(bin);
    let out = spec_to_le(spec_parse(bin));
    let end = segments_end(bin);
    let tree = spec_into_blocks(bin);
    let roots = roots_of(bin);
    lemma_emitted_table_layout(bin);
    lemma_tree_covers_file(bin);
    lemma_nested_roots_in_place(phdrs, shdrs, bin);
    assert(flat_all(tree).len() == end);
    assert forall|i: int| 0 <= i < tree.len() implies sections_sized(#[trigger] tree[i]) by {
        assert(in_place(roots[i], offset_key(roots[i]) as int, phdrs, bin));
        lemma_in_place_is_sized(roots[i], offset_key(roots[i]) as int, phdrs, bin);
        lemma_filled_is_sized(roots[i], bin, offset_key(roots[i]) as int);
    }
    assert forall|k: int| 0 <= k < shdrs.len() implies #[trigger] section_in_file(
        phdrs,
        shdrs[k],
        out.len(),
    ) by {
        lemma_headers_lie_in_tree(tree, 0, tree.len(), k);
    }
    assert(sections_in_file(phdrs, shdrs, out.len()));
    lemma_nested_roots_same_shape(phdrs, shdrs, bin, out);
    let new_roots = nested_roots(phdrs, shdrs, out);
    assert forall|i: int| 0 <= i < new_roots.len() implies can_fill(
        #[trigger] new_roots[i],
        out.len() as int,
        offset_key(new_roots[i]) as int,
    ) by {
        let r = roots[i];
        let o = offset_key(r) as int;
        assert(same_shape(r, new_roots[i]));
        lemma_same_shape_keys(r, new_roots[i]);
        assert(well_laid(r));
        assert(can_fill(r, bin.len() as int, o));
        lemma_roots_end_in_order(roots, (i + 1) as nat, roots.len());
        lemma_fill_stays_inside(r, bin.len() as int, out.len() as int, o);
        lemma_can_fill_same_shape(r, new_roots[i], out.len() as int, o);
    }
}

/// Writing out a tiled image whose tree holds its whole section-header
/// table, and parsing the result, gives an image with the file header that
/// was written, the program headers and the section headers that were
/// parsed, and a tree of the shape of the tree that was parsed.
pub proof fn lemma_round_trip(bin: Seq<u8>)
    requires
        is_tiled(bin),
        keeps_sections(bin),
    ensures
        spec_parse_error(spec_to_le(spec_parse(bin))) is None,
        spec_parse(spec_to_le(spec_parse(bin))).header == emitted_header(spec_parse(bin)),
        spec_parse(spec_to_le(spec_parse(bin))).phdrs == spec_parse(bin).phdrs,
        spec_parse(spec_to_le(spec_parse(bin))).shdrs == spec_parse(bin).shdrs,
        same_shapes(spec_parse(spec_to_le(spec_parse(bin))).blocks, spec_parse(bin).blocks),
{
    let out = spec_to_le(spec_parse(bin));
    lemma_round_trip_keeps_program_headers(bin);
    lemma_round_trip_keeps_section_headers(bin);
    lemma_emitted_tree_can_be_built(bin);
    assert(hdr_shstrndx(out) == hdr_shstrndx(bin));
    lemma_tree_shape_is_of_headers(
        spec_program_headers(bin),
        sections_of_image(bin),
        out,
        bin,
    );
}

} // verus!
