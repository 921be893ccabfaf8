//! Where segments and sections lie in the finished tree. Filling the gaps
//! moves nothing: every segment is still a program header at its place and
//! every section still lies in a narrowest fit. And where every nested
//! segment is smaller than the segment around it, no segment below the
//! parent of a section holds the start of that section.

use crate::block::BlockView;
use crate::builder::{
    filled, filled_upto, gap_before, gap_behind, is_container, nested_roots, offset_key,
    section_fits, spec_tree, tree_ok,
};
use crate::phdr::ProgramHeader;
use crate::placement::{
    at_origin, child_in_place, header_of, headers_of, in_place, in_table_order,
    is_narrowest_header, lemma_in_place_by_children, lemma_nested_roots_are_outermost,
    lemma_nested_roots_in_place, lemma_nested_roots_in_table_order, outermost, roots_in_place,
    section_at, section_in_place,
};
use crate::segment::SegmentView;
use crate::shdr::SectionHeaderView;
use vstd::prelude::*;

verus! {

/// Whether the block `b`, which starts at file position `origin`, is a
/// segment that holds the start of the section with the header `h`, or has
/// such a segment inside it. The offset of `h` is a file position.
pub open spec fn holds_section(b: BlockView, origin: int, h: SectionHeaderView) -> bool
    decreases b,
{
    match b {
        BlockView::Segment(s) => section_fits(at_origin(s.phdr, origin), h) || exists|k: int|
            0 <= k < s.blocks.len() && holds_section(
                #[trigger] s.blocks[k],
                origin + offset_key(s.blocks[k]),
                h,
            ),
        _ => false,
    }
}

/// Whether every section in the block `b`, which starts at file position
/// `origin`, lies in the narrowest segment around it: no sibling of the
/// section, and no segment inside a sibling, holds the start of the
/// section.
pub open spec fn sections_at_narrowest(b: BlockView, origin: int) -> bool
    decreases b,
{
    match b {
        BlockView::Segment(s) => forall|k: int|
            0 <= k < s.blocks.len() ==> match #[trigger] s.blocks[k] {
                BlockView::Section(sec) => forall|m: int|
                    0 <= m < s.blocks.len() ==> !holds_section(
                        #[trigger] s.blocks[m],
                        origin + offset_key(s.blocks[m]),
                        section_at(sec.hdr, origin + sec.hdr.offset),
                    ),
                BlockView::Segment(cs) => sections_at_narrowest(
                    s.blocks[k],
                    origin + cs.phdr.offset,
                ),
                _ => true,
            },
        _ => true,
    }
}

/// Whether every segment nested in the block `b` is smaller in the file
/// than the segment that it is a child of.
pub open spec fn strictly_nested(b: BlockView) -> bool
    decreases b,
{
    match b {
        BlockView::Segment(s) => forall|k: int|
            0 <= k < s.blocks.len() ==> match #[trigger] s.blocks[k] {
                BlockView::Segment(cs) => cs.phdr.filesz < s.phdr.filesz && strictly_nested(
                    s.blocks[k],
                ),
                _ => true,
            },
        _ => true,
    }
}

/// Whether each of `roots` has only smaller segments nested in it.
pub open spec fn roots_strictly_nested(roots: Seq<BlockView>) -> bool {
    forall|i: int| 0 <= i < roots.len() ==> strictly_nested(#[trigger] roots[i])
}

/// A strictly nested segment in its place that holds the start of a
/// section, itself or through a segment inside it, shows a program header
/// that holds that start and is no larger than the segment.
pub proof fn lemma_holder_is_program_header(
    b: BlockView,
    origin: int,
    h: SectionHeaderView,
    phdrs: Seq<ProgramHeader>,
    bin: Seq<u8>,
) -> (j: int)
    requires
        in_place(b, origin, phdrs, bin),
        strictly_nested(b),
        holds_section(b, origin, h),
    ensures
        0 <= j < phdrs.len(),
        section_fits(phdrs[j], h),
        phdrs[j].filesz <= b->Segment_0.phdr.filesz,
    decreases b,
{
    let s = b->Segment_0;
    let p = at_origin(s.phdr, origin);
    if section_fits(p, h) {
        let j = choose|j: int| 0 <= j < phdrs.len() && phdrs[j] == p;
        j
    } else {
        let k = choose|k: int|
            0 <= k < s.blocks.len() && holds_section(
                #[trigger] s.blocks[k],
                origin + offset_key(s.blocks[k]),
                h,
            );
        let c = s.blocks[k];
        match c {
            BlockView::Segment(cs) => {
                lemma_holder_is_program_header(c, origin + cs.phdr.offset, h, phdrs, bin)
            },
            _ => 0,
        }
    }
}

/// In a strictly nested segment in its place, every section lies in the
/// narrowest segment around it.
pub proof fn lemma_in_place_is_narrowest(
    b: BlockView,
    origin: int,
    phdrs: Seq<ProgramHeader>,
    bin: Seq<u8>,
)
    requires
        in_place(b, origin, phdrs, bin),
        strictly_nested(b),
    ensures
        sections_at_narrowest(b, origin),
    decreases b,
{
    let s = b->Segment_0;
    let p = at_origin(s.phdr, origin);
    assert forall|k: int| 0 <= k < s.blocks.len() implies match #[trigger] s.blocks[k] {
        BlockView::Section(sec) => forall|m: int|
            0 <= m < s.blocks.len() ==> !holds_section(
                #[trigger] s.blocks[m],
                origin + offset_key(s.blocks[m]),
                section_at(sec.hdr, origin + sec.hdr.offset),
            ),
        BlockView::Segment(cs) => sections_at_narrowest(s.blocks[k], origin + cs.phdr.offset),
        _ => true,
    } by {
        match s.blocks[k] {
            BlockView::Section(sec) => {
                let h = section_at(sec.hdr, origin + sec.hdr.offset);
                assert(section_in_place(sec, origin, phdrs, bin, p));
                assert(is_narrowest_header(phdrs, h, p));
                assert forall|m: int| 0 <= m < s.blocks.len() implies !holds_section(
                    #[trigger] s.blocks[m],
                    origin + offset_key(s.blocks[m]),
                    h,
                ) by {
                    let c = s.blocks[m];
                    if holds_section(c, origin + offset_key(c), h) {
                        let cs = c->Segment_0;
                        let j = lemma_holder_is_program_header(
                            c,
                            origin + cs.phdr.offset,
                            h,
                            phdrs,
                            bin,
                        );
                        assert(p.filesz <= phdrs[j].filesz);
                        assert(cs.phdr.filesz < s.phdr.filesz);
                    }
                }
            },
            BlockView::Segment(cs) => {
                lemma_in_place_is_narrowest(s.blocks[k], origin + cs.phdr.offset, phdrs, bin);
            },
            _ => {},
        }
    }
}

/// Each block among the first `n` filled children of a segment is raw data
/// put in front of a child, or one of the children, filled.
pub proof fn lemma_filled_members(
    children: Seq<BlockView>,
    bin: Seq<u8>,
    origin: int,
    n: nat,
    j: int,
) -> (k: int)
    requires
        n <= children.len(),
        0 <= j < filled_upto(children, bin, origin, n).len(),
    ensures
        filled_upto(children, bin, origin, n)[j] is RawDat || (0 <= k < n && filled_upto(
            children,
            bin,
            origin,
            n,
        )[j] == filled(children[k], bin, origin + offset_key(children[k]))),
    decreases n,
{
    let prev = filled_upto(children, bin, origin, (n - 1) as nat);
    let gap = gap_before(children, bin, origin, n - 1);
    if j < prev.len() {
        lemma_filled_members(children, bin, origin, (n - 1) as nat, j)
    } else if j < prev.len() + gap.len() {
        0
    } else {
        n - 1
    }
}

/// Each block of a filled segment is raw data put in front of a child or
/// behind the last, or one of the children, filled.
pub proof fn lemma_filled_blocks(s: SegmentView, bin: Seq<u8>, origin: int, j: int) -> (k: int)
    requires
        0 <= j < filled(BlockView::Segment(s), bin, origin)->Segment_0.blocks.len(),
    ensures
        filled(BlockView::Segment(s), bin, origin)->Segment_0.blocks[j] is RawDat || (0 <= k
            < s.blocks.len() && filled(BlockView::Segment(s), bin, origin)->Segment_0.blocks[j]
            == filled(s.blocks[k], bin, origin + offset_key(s.blocks[k]))),
{
    let front = filled_upto(s.blocks, bin, origin, s.blocks.len());
    let tail = gap_behind(s, bin, origin);
    if j < front.len() {
        assert((front + tail)[j] == front[j]);
        lemma_filled_members(s.blocks, bin, origin, s.blocks.len(), j)
    } else {
        assert((front + tail)[j] == tail[j - front.len()]);
        0
    }
}

/// Filling the gaps of a block changes neither its kind nor its offset.
pub proof fn lemma_filled_keeps_header(b: BlockView, bin: Seq<u8>, origin: int)
    ensures
        offset_key(filled(b, bin, origin)) == offset_key(b),
        filled(b, bin, origin) is Segment <==> b is Segment,
        b is Segment ==> filled(b, bin, origin)->Segment_0.phdr == b->Segment_0.phdr,
        !(b is Segment) ==> filled(b, bin, origin) == b,
{
}

/// A filled block holds the start of a section only where the block did
/// before it was filled.
pub proof fn lemma_filled_holds_no_more(
    b: BlockView,
    bin: Seq<u8>,
    origin: int,
    h: SectionHeaderView,
)
    requires
        holds_section(filled(b, bin, origin), origin, h),
    ensures
        holds_section(b, origin, h),
    decreases b,
{
    lemma_filled_keeps_header(b, bin, origin);
    let s = b->Segment_0;
    let f = filled(b, bin, origin)->Segment_0;
    if !section_fits(at_origin(s.phdr, origin), h) {
        let j = choose|j: int|
            0 <= j < f.blocks.len() && holds_section(
                #[trigger] f.blocks[j],
                origin + offset_key(f.blocks[j]),
                h,
            );
        let k = lemma_filled_blocks(s, bin, origin, j);
        let c = s.blocks[k];
        lemma_filled_keeps_header(c, bin, origin + offset_key(c));
        lemma_filled_holds_no_more(c, bin, origin + offset_key(c), h);
    }
}

/// Filling the gaps of a block leaves every section in the narrowest
/// segment around it.
pub proof fn lemma_filled_is_narrowest(b: BlockView, bin: Seq<u8>, origin: int)
    requires
        sections_at_narrowest(b, origin),
    ensures
        sections_at_narrowest(filled(b, bin, origin), origin),
    decreases b,
{
    lemma_filled_keeps_header(b, bin, origin);
    match b {
        BlockView::Segment(s) => {
            let f = filled(b, bin, origin)->Segment_0;
            {
                assert forall|j: int| 0 <= j < f.blocks.len() implies match #[trigger] f.blocks[j] {
                    BlockView::Section(sec) => forall|m: int|
                        0 <= m < f.blocks.len() ==> !holds_section(
                            #[trigger] f.blocks[m],
                            origin + offset_key(f.blocks[m]),
                            section_at(sec.hdr, origin + sec.hdr.offset),
                        ),
                    BlockView::Segment(cs) => sections_at_narrowest(
                        f.blocks[j],
                        origin + cs.phdr.offset,
                    ),
                    _ => true,
                } by {
                    let k = lemma_filled_blocks(s, bin, origin, j);
                    if !(f.blocks[j] is RawDat) {
                        let c = s.blocks[k];
                        lemma_filled_keeps_header(c, bin, origin + offset_key(c));
                        match c {
                            BlockView::Section(sec) => {
                                let h = section_at(sec.hdr, origin + sec.hdr.offset);
                                assert forall|m: int| 0 <= m < f.blocks.len() implies !holds_section(
                                    #[trigger] f.blocks[m],
                                    origin + offset_key(f.blocks[m]),
                                    h,
                                ) by {
                                    let q = lemma_filled_blocks(s, bin, origin, m);
                                    if !(f.blocks[m] is RawDat) {
                                        let d = s.blocks[q];
                                        lemma_filled_keeps_header(d, bin, origin + offset_key(d));
                                        assert(!holds_section(d, origin + offset_key(d), h));
                                        if holds_section(f.blocks[m], origin + offset_key(d), h) {
                                            lemma_filled_holds_no_more(
                                                d,
                                                bin,
                                                origin + offset_key(d),
                                                h,
                                            );
                                        }
                                    }
                                }
                            },
                            BlockView::Segment(cs) => {
                                lemma_filled_is_narrowest(c, bin, origin + cs.phdr.offset);
                            },
                            _ => {},
                        }
                    }
                }
            }
        },
        _ => {},
    }
}

/// Filling the gaps of a block in its place leaves it in its place.
pub proof fn lemma_filled_in_place(
    b: BlockView,
    origin: int,
    phdrs: Seq<ProgramHeader>,
    bin: Seq<u8>,
)
    requires
        in_place(b, origin, phdrs, bin),
    ensures
        in_place(filled(b, bin, origin), origin, phdrs, bin),
    decreases b,
{
    lemma_filled_keeps_header(b, bin, origin);
    let s = b->Segment_0;
    let f = filled(b, bin, origin)->Segment_0;
    let p = at_origin(s.phdr, origin);
    lemma_in_place_by_children(s, origin, phdrs, bin);
    lemma_in_place_by_children(f, origin, phdrs, bin);
    assert forall|j: int| 0 <= j < f.blocks.len() implies child_in_place(
        #[trigger] f.blocks[j],
        origin,
        phdrs,
        bin,
        p,
    ) by {
        {
            let k = lemma_filled_blocks(s, bin, origin, j);
            if !(f.blocks[j] is RawDat) {
                let c = s.blocks[k];
                lemma_filled_keeps_header(c, bin, origin + offset_key(c));
                assert(child_in_place(c, origin, phdrs, bin, p));
                match c {
                    BlockView::Segment(cs) => {
                        lemma_filled_in_place(c, origin + cs.phdr.offset, phdrs, bin);
                    },
                    _ => {},
                }
            }
        }
    }
}

/// In the tree of any file from which it can be built, every segment is
/// one of the program headers, at the file position that the header gives:
/// the offset of a root is that position, the offset of a nested segment
/// counts from the start of the segment around it. Every section lies in a
/// segment than which no program header that holds its start is smaller,
/// at its own file position, and holds the bytes that the file has there,
/// or none where it takes no room in the file.
pub proof fn lemma_tree_in_place(
    phdrs: Seq<ProgramHeader>,
    shdrs: Seq<SectionHeaderView>,
    bin: Seq<u8>,
)
    requires
        tree_ok(phdrs, shdrs, bin),
    ensures
        roots_in_place(spec_tree(phdrs, shdrs, bin), phdrs, bin),
{
    let roots = nested_roots(phdrs, shdrs, bin);
    let tree = spec_tree(phdrs, shdrs, bin);
    lemma_nested_roots_in_place(phdrs, shdrs, bin);
    assert forall|i: int| 0 <= i < tree.len() implies in_place(
        #[trigger] tree[i],
        offset_key(tree[i]) as int,
        phdrs,
        bin,
    ) by {
        let r = roots[i];
        let o = offset_key(r) as int;
        assert(in_place(r, o, phdrs, bin));
        lemma_filled_in_place(r, o, phdrs, bin);
        lemma_filled_keeps_header(r, bin, o);
    }
}

/// No root of the tree of a file contains another root: each root lies
/// outside every other root.
pub proof fn lemma_tree_roots_are_outermost(
    phdrs: Seq<ProgramHeader>,
    shdrs: Seq<SectionHeaderView>,
    bin: Seq<u8>,
)
    ensures
        outermost(spec_tree(phdrs, shdrs, bin)),
{
    let roots = nested_roots(phdrs, shdrs, bin);
    let tree = spec_tree(phdrs, shdrs, bin);
    lemma_nested_roots_are_outermost(phdrs, shdrs, bin);
    assert forall|i: int, j: int|
        0 <= i < tree.len() && 0 <= j < tree.len() && i != j implies !is_container(
        #[trigger] tree[j],
        #[trigger] tree[i],
    ) by {
        lemma_filled_keeps_header(roots[i], bin, offset_key(roots[i]) as int);
        lemma_filled_keeps_header(roots[j], bin, offset_key(roots[j]) as int);
        assert(!is_container(roots[j], roots[i]));
    }
}

/// The roots of the tree of a file are program headers of the table, with
/// their offsets as the table has them, and stand in the order of the
/// table.
pub proof fn lemma_tree_roots_in_table_order(
    phdrs: Seq<ProgramHeader>,
    shdrs: Seq<SectionHeaderView>,
    bin: Seq<u8>,
)
    ensures
        in_table_order(headers_of(spec_tree(phdrs, shdrs, bin)), phdrs),
{
    let roots = nested_roots(phdrs, shdrs, bin);
    let tree = spec_tree(phdrs, shdrs, bin);
    lemma_nested_roots_in_table_order(phdrs, shdrs, bin);
    assert(headers_of(tree) =~= headers_of(roots)) by {
        assert forall|i: int| 0 <= i < tree.len() implies header_of(tree[i]) == header_of(
            roots[i],
        ) by {
            lemma_filled_keeps_header(roots[i], bin, offset_key(roots[i]) as int);
        }
    }
}

/// In the tree of a file in which every nested segment is smaller than the
/// segment around it, every section lies in the narrowest segment around
/// it: no segment below the parent of a section holds the start of the
/// section.
pub proof fn lemma_tree_sections_at_narrowest(
    phdrs: Seq<ProgramHeader>,
    shdrs: Seq<SectionHeaderView>,
    bin: Seq<u8>,
)
    requires
        tree_ok(phdrs, shdrs, bin),
        roots_strictly_nested(nested_roots(phdrs, shdrs, bin)),
    ensures
        forall|i: int|
            0 <= i < spec_tree(phdrs, shdrs, bin).len() ==> sections_at_narrowest(
                #[trigger] spec_tree(phdrs, shdrs, bin)[i],
                offset_key(spec_tree(phdrs, shdrs, bin)[i]) as int,
            ),
{
    let roots = nested_roots(phdrs, shdrs, bin);
    let tree = spec_tree(phdrs, shdrs, bin);
    lemma_nested_roots_in_place(phdrs, shdrs, bin);
    assert forall|i: int| 0 <= i < tree.len() implies sections_at_narrowest(
        #[trigger] tree[i],
        offset_key(tree[i]) as int,
    ) by {
        let r = roots[i];
        let o = offset_key(r) as int;
        assert(in_place(r, o, phdrs, bin));
        assert(strictly_nested(r));
        lemma_in_place_is_narrowest(r, o, phdrs, bin);
        lemma_filled_is_narrowest(r, bin, o);
        lemma_filled_keeps_header(r, bin, o);
        assert(tree[i] == filled(r, bin, o));
    }
}

} // verus!
