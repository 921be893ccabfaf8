//! What holds of the tree that the builder makes, whatever the file: every
//! segment of the tree is one of the program headers, at the file position
//! that the header gives; every section of the tree lies in its narrowest
//! fit and holds the bytes that the file has at its place.

use crate::block::BlockView;
use crate::builder::{
    adopt, assign_sections, first_container, is_container, is_first_container, is_narrowest_fit,
    lemma_sorted_len, lemma_sorted_members, narrowest_fit, nest_from, nested_roots, offset_key,
    root_with_sections, section_block, section_content, section_fits, section_in_file,
    sections_in_file, sections_of, sort_by_offset,
};
use crate::layout::faithful;
use crate::phdr::ProgramHeader;
use crate::section::SectionView;
use crate::segment::SegmentView;
use crate::shdr::SectionHeaderView;
use vstd::prelude::*;

verus! {

/// The header `p` with the file position `origin` as its offset.
pub open spec fn at_origin(p: ProgramHeader, origin: int) -> ProgramHeader {
    ProgramHeader { offset: origin as u64, ..p }
}

/// The section header `h` with the file position `pos` as its offset.
pub open spec fn section_at(h: SectionHeaderView, pos: int) -> SectionHeaderView {
    SectionHeaderView { offset: pos as u64, ..h }
}

/// Whether the segment with the header `p` is a narrowest fit of the
/// section with the header `h`, both with file positions as offsets: `p` is
/// one of the program headers, it holds the start of the section, and no
/// program header that does is smaller in the file.
pub open spec fn is_narrowest_header(
    phdrs: Seq<ProgramHeader>,
    h: SectionHeaderView,
    p: ProgramHeader,
) -> bool {
    &&& phdrs.contains(p)
    &&& section_fits(p, h)
    &&& forall|j: int|
        0 <= j < phdrs.len() && #[trigger] section_fits(phdrs[j], h) ==> p.filesz
            <= phdrs[j].filesz
}

/// Whether the section `s`, a child of the segment with the header `p` at
/// file position `origin`, is in its place: the segment is a narrowest fit
/// of it, and it holds the bytes that the file has at its place.
pub open spec fn section_in_place(
    s: SectionView,
    origin: int,
    phdrs: Seq<ProgramHeader>,
    bin: Seq<u8>,
    p: ProgramHeader,
) -> bool {
    let h = section_at(s.hdr, origin + s.hdr.offset);
    &&& origin + s.hdr.offset <= u64::MAX
    &&& is_narrowest_header(phdrs, h, p)
    &&& s.content == section_content(h, bin)
    &&& (h.is_nobits() || h.offset + h.size <= bin.len())
}

/// Whether the block `b`, which starts at file position `origin`, is a
/// segment in its place: with `origin` as its offset its header is one of
/// the program headers `phdrs`, each section among its children is in its
/// place, and each segment among them is in its place at the position that
/// its offset gives from `origin`. Of raw data and padding among the
/// children nothing is asked.
pub open spec fn in_place(b: BlockView, origin: int, phdrs: Seq<ProgramHeader>, bin: Seq<u8>) -> bool
    decreases b,
{
    match b {
        BlockView::Segment(s) => {
            &&& 0 <= origin <= u64::MAX
            &&& phdrs.contains(at_origin(s.phdr, origin))
            &&& forall|k: int|
                0 <= k < s.blocks.len() ==> match #[trigger] s.blocks[k] {
                    BlockView::Segment(cs) => in_place(
                        s.blocks[k],
                        origin + cs.phdr.offset,
                        phdrs,
                        bin,
                    ),
                    BlockView::Section(sec) => section_in_place(
                        sec,
                        origin,
                        phdrs,
                        bin,
                        at_origin(s.phdr, origin),
                    ),
                    _ => true,
                }
        },
        _ => false,
    }
}

/// Whether the child `c` of a segment with the header `p` at file position
/// `origin` is in its place.
pub open spec fn child_in_place(
    c: BlockView,
    origin: int,
    phdrs: Seq<ProgramHeader>,
    bin: Seq<u8>,
    p: ProgramHeader,
) -> bool {
    match c {
        BlockView::Segment(cs) => in_place(c, origin + cs.phdr.offset, phdrs, bin),
        BlockView::Section(sec) => section_in_place(sec, origin, phdrs, bin, p),
        _ => true,
    }
}

/// A segment is in its place when its header is a program header and each
/// of its children is in its place, and only then.
pub proof fn lemma_in_place_by_children(
    s: SegmentView,
    origin: int,
    phdrs: Seq<ProgramHeader>,
    bin: Seq<u8>,
)
    ensures
        in_place(BlockView::Segment(s), origin, phdrs, bin) <==> {
            &&& 0 <= origin <= u64::MAX
            &&& phdrs.contains(at_origin(s.phdr, origin))
            &&& forall|k: int|
                0 <= k < s.blocks.len() ==> child_in_place(
                    #[trigger] s.blocks[k],
                    origin,
                    phdrs,
                    bin,
                    at_origin(s.phdr, origin),
                )
        },
{
    let p = at_origin(s.phdr, origin);
    if in_place(BlockView::Segment(s), origin, phdrs, bin) {
        assert forall|k: int| 0 <= k < s.blocks.len() implies child_in_place(
            #[trigger] s.blocks[k],
            origin,
            phdrs,
            bin,
            p,
        ) by {}
    }
    if (forall|k: int|
        0 <= k < s.blocks.len() ==> child_in_place(#[trigger] s.blocks[k], origin, phdrs, bin, p)) {
        assert forall|k: int| 0 <= k < s.blocks.len() implies match #[trigger] s.blocks[k] {
            BlockView::Segment(cs) => in_place(s.blocks[k], origin + cs.phdr.offset, phdrs, bin),
            BlockView::Section(sec) => section_in_place(sec, origin, phdrs, bin, p),
            _ => true,
        } by {
            assert(child_in_place(s.blocks[k], origin, phdrs, bin, p));
        }
    }
}

/// Whether each of `roots` is a segment in its place at the file position
/// that its header gives.
pub open spec fn roots_in_place(roots: Seq<BlockView>, phdrs: Seq<ProgramHeader>, bin: Seq<u8>) -> bool {
    forall|i: int|
        0 <= i < roots.len() ==> in_place(#[trigger] roots[i], offset_key(roots[i]) as int, phdrs, bin)
}

/// Each block that `sections_of` gives for segment `i` is the block of one
/// of the sections that have `i` as their narrowest fit.
pub proof fn lemma_sections_of_members(
    phdrs: Seq<ProgramHeader>,
    shdrs: Seq<SectionHeaderView>,
    bin: Seq<u8>,
    i: int,
    n: nat,
    j: int,
) -> (k: int)
    requires
        n <= shdrs.len(),
        0 <= j < sections_of(phdrs, shdrs, bin, i, n).len(),
    ensures
        0 <= k < n,
        narrowest_fit(phdrs, shdrs[k]) == Some(i),
        sections_of(phdrs, shdrs, bin, i, n)[j] == section_block(phdrs[i], shdrs[k], bin),
    decreases n,
{
    let prev = sections_of(phdrs, shdrs, bin, i, (n - 1) as nat);
    if j < prev.len() {
        lemma_sections_of_members(phdrs, shdrs, bin, i, (n - 1) as nat, j)
    } else {
        n - 1
    }
}

/// Once each section has gone to its narrowest fit, every root is in its
/// place, provided that the bytes of each section lie in the file.
pub proof fn lemma_assigned_roots_in_place(
    phdrs: Seq<ProgramHeader>,
    shdrs: Seq<SectionHeaderView>,
    bin: Seq<u8>,
)
    requires
        sections_in_file(phdrs, shdrs, bin.len()),
    ensures
        roots_in_place(assign_sections(phdrs, shdrs, bin), phdrs, bin),
{
    let roots = assign_sections(phdrs, shdrs, bin);
    assert forall|i: int| 0 <= i < roots.len() implies in_place(
        #[trigger] roots[i],
        offset_key(roots[i]) as int,
        phdrs,
        bin,
    ) by {
        let s = roots[i]->Segment_0;
        let origin = phdrs[i].offset as int;
        assert(roots[i] == root_with_sections(phdrs, shdrs, bin, i, shdrs.len()));
        assert(phdrs[i] == at_origin(s.phdr, origin));
        assert forall|j: int| 0 <= j < s.blocks.len() implies child_in_place(
            #[trigger] s.blocks[j],
            origin,
            phdrs,
            bin,
            phdrs[i],
        ) by {
            let k = lemma_sections_of_members(phdrs, shdrs, bin, i, shdrs.len(), j);
            let sh = shdrs[k];
            assert(is_narrowest_fit(phdrs, sh, i));
            assert(section_in_file(phdrs, sh, bin.len()));
            let c = s.blocks[j]->Section_0;
            assert(section_at(c.hdr, origin + c.hdr.offset) == sh);
            assert(is_narrowest_header(phdrs, sh, phdrs[i]));
        }
        lemma_in_place_by_children(s, origin, phdrs, bin);
    }
}

/// Whether a block is in its place does not depend on the offset in its
/// own header, only on the file position at which it starts.
pub proof fn lemma_in_place_ignores_own_offset(
    s: SegmentView,
    offset: u64,
    origin: int,
    phdrs: Seq<ProgramHeader>,
    bin: Seq<u8>,
)
    requires
        in_place(BlockView::Segment(s), origin, phdrs, bin),
    ensures
        in_place(
            BlockView::Segment(
                SegmentView { phdr: ProgramHeader { offset: offset, ..s.phdr }, blocks: s.blocks },
            ),
            origin,
            phdrs,
            bin,
        ),
{
    let t = SegmentView { phdr: ProgramHeader { offset: offset, ..s.phdr }, blocks: s.blocks };
    lemma_in_place_by_children(s, origin, phdrs, bin);
    lemma_in_place_by_children(t, origin, phdrs, bin);
    assert(at_origin(t.phdr, origin) == at_origin(s.phdr, origin));
    assert forall|k: int| 0 <= k < t.blocks.len() implies child_in_place(
        #[trigger] t.blocks[k],
        origin,
        phdrs,
        bin,
        at_origin(t.phdr, origin),
    ) by {
        assert(child_in_place(s.blocks[k], origin, phdrs, bin, at_origin(s.phdr, origin)));
    }
}

/// A root that takes in another root that it contains stays in its place,
/// and the root that moved in is in its place inside it.
pub proof fn lemma_adopt_in_place(
    c: BlockView,
    item: BlockView,
    phdrs: Seq<ProgramHeader>,
    bin: Seq<u8>,
)
    requires
        in_place(c, offset_key(c) as int, phdrs, bin),
        in_place(item, offset_key(item) as int, phdrs, bin),
        is_container(c, item),
    ensures
        adopt(c, item) is Segment,
        offset_key(adopt(c, item)) == offset_key(c),
        in_place(adopt(c, item), offset_key(c) as int, phdrs, bin),
{
    let cs = c->Segment_0;
    let is = item->Segment_0;
    let oc = cs.phdr.offset as int;
    let oi = is.phdr.offset as int;
    let moved = SegmentView {
        phdr: ProgramHeader { offset: (oi - oc) as u64, ..is.phdr },
        blocks: is.blocks,
    };
    let pushed = cs.blocks.push(BlockView::Segment(moved));
    let sorted = sort_by_offset(pushed);
    let a = adopt(c, item)->Segment_0;
    assert(a.blocks == sorted);
    let p = at_origin(cs.phdr, oc);
    lemma_in_place_by_children(cs, oc, phdrs, bin);
    lemma_in_place_by_children(a, oc, phdrs, bin);
    lemma_in_place_ignores_own_offset(is, (oi - oc) as u64, oi, phdrs, bin);
    assert(child_in_place(BlockView::Segment(moved), oc, phdrs, bin, p));
    lemma_sorted_len(pushed, pushed.len());
    assert forall|k: int| 0 <= k < sorted.len() implies child_in_place(
        #[trigger] sorted[k],
        oc,
        phdrs,
        bin,
        p,
    ) by {
        let q = lemma_sorted_members(pushed, pushed.len(), k);
        if q < cs.blocks.len() {
            assert(pushed[q] == cs.blocks[q]);
        }
    }
}

/// Nesting the roots leaves every root in its place.
pub proof fn lemma_nest_in_place(
    blocks: Seq<BlockView>,
    idx: nat,
    phdrs: Seq<ProgramHeader>,
    bin: Seq<u8>,
)
    requires
        roots_in_place(blocks, phdrs, bin),
    ensures
        roots_in_place(nest_from(blocks, idx), phdrs, bin),
    decreases blocks.len() - idx,
{
    if idx < blocks.len() {
        let item = blocks[idx as int];
        let rest = blocks.remove(idx as int);
        assert forall|i: int| 0 <= i < rest.len() implies in_place(
            #[trigger] rest[i],
            offset_key(rest[i]) as int,
            phdrs,
            bin,
        ) by {
            if i < idx {
                assert(rest[i] == blocks[i]);
            } else {
                assert(rest[i] == blocks[i + 1]);
            }
        }
        match first_container(rest, item) {
            Some(j) => {
                if 0 <= j < rest.len() {
                    assert(is_first_container(rest, item, j));
                    assert(item == blocks[idx as int]);
                    lemma_adopt_in_place(rest[j], item, phdrs, bin);
                    let next = rest.update(j, adopt(rest[j], item));
                    assert forall|i: int| 0 <= i < next.len() implies in_place(
                        #[trigger] next[i],
                        offset_key(next[i]) as int,
                        phdrs,
                        bin,
                    ) by {
                        if i != j {
                            assert(next[i] == rest[i]);
                        }
                    }
                    lemma_nest_in_place(next, idx, phdrs, bin);
                }
            },
            None => {
                let next = seq![item] + rest;
                assert forall|i: int| 0 <= i < next.len() implies in_place(
                    #[trigger] next[i],
                    offset_key(next[i]) as int,
                    phdrs,
                    bin,
                ) by {
                    if i > 0 {
                        assert(next[i] == rest[i - 1]);
                    }
                }
                lemma_nest_in_place(next, idx + 1, phdrs, bin);
            },
        }
    }
}

/// Every root of the tree, before its gaps are filled, is a segment in its
/// place, provided that the bytes of each section lie in the file.
pub proof fn lemma_nested_roots_in_place(
    phdrs: Seq<ProgramHeader>,
    shdrs: Seq<SectionHeaderView>,
    bin: Seq<u8>,
)
    requires
        sections_in_file(phdrs, shdrs, bin.len()),
    ensures
        roots_in_place(nested_roots(phdrs, shdrs, bin), phdrs, bin),
{
    lemma_assigned_roots_in_place(phdrs, shdrs, bin);
    let nested = nest_from(assign_sections(phdrs, shdrs, bin), 0);
    lemma_nest_in_place(assign_sections(phdrs, shdrs, bin), 0, phdrs, bin);
    let roots = nested.reverse();
    assert forall|i: int| 0 <= i < roots.len() implies in_place(
        #[trigger] roots[i],
        offset_key(roots[i]) as int,
        phdrs,
        bin,
    ) by {
        assert(roots[i] == nested[nested.len() - 1 - i]);
    }
}

/// Whether none of `blocks` contains another of them.
pub open spec fn outermost(blocks: Seq<BlockView>) -> bool {
    settled(blocks, blocks.len())
}

/// Whether none of `blocks` contains one of the first `idx` of them.
pub open spec fn settled(blocks: Seq<BlockView>, idx: nat) -> bool {
    forall|i: int, j: int|
        0 <= i < idx && i < blocks.len() && 0 <= j < blocks.len() && i != j ==> !is_container(
            #[trigger] blocks[j],
            #[trigger] blocks[i],
        )
}

/// Where one of `blocks` contains `item`, one of them is the first to.
pub proof fn lemma_least_container(blocks: Seq<BlockView>, item: BlockView, j: int)
    requires
        0 <= j < blocks.len(),
        is_container(blocks[j], item),
    ensures
        first_container(blocks, item) is Some,
    decreases j,
{
    if exists|k: int| 0 <= k < j && is_container(#[trigger] blocks[k], item) {
        let k = choose|k: int| 0 <= k < j && is_container(#[trigger] blocks[k], item);
        lemma_least_container(blocks, item, k);
    } else {
        assert(is_first_container(blocks, item, j));
    }
}

/// Nesting the roots from position `idx` on leaves no root that contains
/// another, where none contains one of those in front of `idx`: every
/// segment that stays a root lies outside every other root.
pub proof fn lemma_nest_settles(blocks: Seq<BlockView>, idx: nat)
    requires
        settled(blocks, idx),
    ensures
        outermost(nest_from(blocks, idx)),
    decreases blocks.len() - idx,
{
    if idx < blocks.len() {
        let item = blocks[idx as int];
        let rest = blocks.remove(idx as int);
        match first_container(rest, item) {
            Some(j) => {
                if 0 <= j < rest.len() {
                    assert(is_first_container(rest, item, j));
                    let next = rest.update(j, adopt(rest[j], item));
                    assert forall|i: int, k: int|
                        0 <= i < idx && i < next.len() && 0 <= k < next.len() && i
                            != k implies !is_container(#[trigger] next[k], #[trigger] next[i]) by {
                        let bi = if i < idx { i } else { i + 1 };
                        let bk = if k < idx { k } else { k + 1 };
                        assert(rest[i] == blocks[bi]);
                        assert(rest[k] == blocks[bk]);
                        assert(!is_container(blocks[bk], blocks[bi]));
                    }
                    lemma_nest_settles(next, idx);
                }
            },
            None => {
                let next = seq![item] + rest;
                assert forall|i: int, k: int|
                    0 <= i < idx + 1 && i < next.len() && 0 <= k < next.len() && i
                        != k implies !is_container(#[trigger] next[k], #[trigger] next[i]) by {
                    if i == 0 {
                        if is_container(rest[k - 1], item) {
                            lemma_least_container(rest, item, k - 1);
                        }
                    } else {
                        assert(next[i] == blocks[i - 1]);
                        if k == 0 {
                            assert(!is_container(blocks[idx as int], blocks[i - 1]));
                        } else {
                            let bk = if k - 1 < idx { k - 1 } else { k };
                            assert(next[k] == blocks[bk]);
                            assert(!is_container(blocks[bk], blocks[i - 1]));
                        }
                    }
                }
                lemma_nest_settles(next, idx + 1);
            },
        }
    }
}

/// No root of the tree, before its gaps are filled, contains another root:
/// the segments that stay roots are those that lie outside every other
/// root, and every other segment has moved into one of them.
pub proof fn lemma_nested_roots_are_outermost(
    phdrs: Seq<ProgramHeader>,
    shdrs: Seq<SectionHeaderView>,
    bin: Seq<u8>,
)
    ensures
        outermost(nested_roots(phdrs, shdrs, bin)),
{
    let nested = nest_from(assign_sections(phdrs, shdrs, bin), 0);
    lemma_nest_settles(assign_sections(phdrs, shdrs, bin), 0);
    let roots = nested.reverse();
    assert forall|i: int, j: int|
        0 <= i < roots.len() && 0 <= j < roots.len() && i != j implies !is_container(
        #[trigger] roots[j],
        #[trigger] roots[i],
    ) by {
        assert(roots[i] == nested[nested.len() - 1 - i]);
        assert(roots[j] == nested[nested.len() - 1 - j]);
    }
}

/// The program header of a block that is a segment.
pub open spec fn header_of(b: BlockView) -> ProgramHeader {
    b->Segment_0.phdr
}

/// The program headers of `blocks`, one for one.
pub open spec fn headers_of(blocks: Seq<BlockView>) -> Seq<ProgramHeader> {
    Seq::new(blocks.len(), |i: int| header_of(blocks[i]))
}

/// Whether `at` names places in `table`, each behind the one before it, at
/// which the headers `picked` stand, one for one.
pub open spec fn picks(picked: Seq<ProgramHeader>, table: Seq<ProgramHeader>, at: Seq<int>) -> bool {
    &&& at.len() == picked.len()
    &&& forall|k: int| 0 <= k < at.len() ==> 0 <= #[trigger] at[k] < table.len() && picked[k]
        == table[at[k]]
    &&& forall|k: int, m: int| 0 <= k < m < at.len() ==> #[trigger] at[k] < #[trigger] at[m]
}

/// Whether the headers `picked` are headers of `table`, in the order of
/// the table.
pub open spec fn in_table_order(picked: Seq<ProgramHeader>, table: Seq<ProgramHeader>) -> bool {
    exists|at: Seq<int>| picks(picked, table, at)
}

/// Headers that stand in the order of a table without one of its entries
/// stand in the order of the table.
pub proof fn lemma_in_table_order_without(
    picked: Seq<ProgramHeader>,
    table: Seq<ProgramHeader>,
    i: int,
)
    requires
        0 <= i < table.len(),
        in_table_order(picked, table.remove(i)),
    ensures
        in_table_order(picked, table),
{
    let at = choose|at: Seq<int>| picks(picked, table.remove(i), at);
    let moved = Seq::new(
        at.len(),
        |k: int|
            if at[k] < i {
                at[k]
            } else {
                at[k] + 1
            },
    );
    assert forall|k: int| 0 <= k < moved.len() implies 0 <= #[trigger] moved[k] < table.len()
        && picked[k] == table[moved[k]] by {
        assert(0 <= at[k] < table.remove(i).len());
    }
    assert forall|k: int, m: int| 0 <= k < m < moved.len() implies #[trigger] moved[k]
        < #[trigger] moved[m] by {
        assert(at[k] < at[m]);
    }
    assert(picks(picked, table, moved));
}

/// The headers of the first `idx` of `blocks`, last first, and behind them
/// those of the rest: the roots in the order in which the table had them,
/// while the roots from `idx` on are still to be nested.
pub open spec fn table_order(blocks: Seq<BlockView>, idx: nat) -> Seq<ProgramHeader> {
    headers_of(blocks.take(idx as int).reverse() + blocks.skip(idx as int))
}

/// Nesting the roots from position `idx` on leaves roots that, last first,
/// stand in the order in which the table had them.
pub proof fn lemma_nest_keeps_table_order(blocks: Seq<BlockView>, idx: nat)
    requires
        idx <= blocks.len(),
    ensures
        in_table_order(headers_of(nest_from(blocks, idx).reverse()), table_order(blocks, idx)),
    decreases blocks.len() - idx,
{
    let here = table_order(blocks, idx);
    if idx < blocks.len() {
        let item = blocks[idx as int];
        let rest = blocks.remove(idx as int);
        match first_container(rest, item) {
            Some(j) => {
                assert(is_first_container(rest, item, j));
                {
                    let next = rest.update(j, adopt(rest[j], item));
                    lemma_nest_keeps_table_order(next, idx);
                    assert(header_of(adopt(rest[j], item)) == header_of(rest[j]));
                    assert(table_order(next, idx) =~= here.remove(idx as int)) by {
                        let a = table_order(next, idx);
                        let b = here.remove(idx as int);
                        assert(a.len() == b.len());
                        assert forall|k: int| 0 <= k < a.len() implies a[k] == b[k] by {
                            if k < idx {
                                assert(next.take(idx as int).reverse()[k] == next[idx - 1 - k]);
                                assert(blocks.take(idx as int).reverse()[k] == blocks[idx - 1 - k]);
                                assert(rest[idx - 1 - k] == blocks[idx - 1 - k]);
                            } else {
                                assert(next.skip(idx as int)[k - idx] == next[k]);
                                assert(blocks.skip(idx as int)[k + 1 - idx] == blocks[k + 1]);
                                assert(rest[k] == blocks[k + 1]);
                            }
                        }
                    }
                    lemma_in_table_order_without(
                        headers_of(nest_from(blocks, idx).reverse()),
                        here,
                        idx as int,
                    );
                }
            },
            None => {
                let next = seq![item] + rest;
                lemma_nest_keeps_table_order(next, idx + 1);
                assert(table_order(next, idx + 1) =~= here) by {
                    let a = table_order(next, idx + 1);
                    assert(a.len() == here.len());
                    assert forall|k: int| 0 <= k < a.len() implies a[k] == here[k] by {
                        if k < idx {
                            assert(next.take(idx as int + 1).reverse()[k] == next[idx - k]);
                            assert(blocks.take(idx as int).reverse()[k] == blocks[idx - 1 - k]);
                            assert(next[idx - k] == rest[idx - k - 1]);
                        } else if k == idx {
                            assert(next.take(idx as int + 1).reverse()[k] == next[0]);
                            assert(blocks.skip(idx as int)[0] == blocks[idx as int]);
                        } else {
                            assert(next.skip(idx as int + 1)[k - idx - 1] == next[k]);
                            assert(next[k] == rest[k - 1]);
                            assert(blocks.skip(idx as int)[k - idx] == blocks[k]);
                        }
                    }
                }
            },
        }
    } else {
        assert(here =~= headers_of(blocks.reverse())) by {
            assert(blocks.take(idx as int) =~= blocks);
            assert(blocks.skip(idx as int) =~= Seq::<BlockView>::empty());
            assert(blocks.reverse() + Seq::<BlockView>::empty() =~= blocks.reverse());
        }
        lemma_in_own_table_order(here);
    }
}

/// The headers of a table stand in the order of the table.
pub proof fn lemma_in_own_table_order(table: Seq<ProgramHeader>)
    ensures
        in_table_order(table, table),
{
    let at = Seq::new(table.len(), |k: int| k);
    assert(picks(table, table, at));
}

/// The roots of the tree, before their gaps are filled, are program
/// headers of the table and stand in the order of the table.
pub proof fn lemma_nested_roots_in_table_order(
    phdrs: Seq<ProgramHeader>,
    shdrs: Seq<SectionHeaderView>,
    bin: Seq<u8>,
)
    ensures
        in_table_order(headers_of(nested_roots(phdrs, shdrs, bin)), phdrs),
{
    let assigned = assign_sections(phdrs, shdrs, bin);
    lemma_nest_keeps_table_order(assigned, 0);
    assert(table_order(assigned, 0) =~= phdrs) by {
        assert(assigned.take(0) =~= Seq::<BlockView>::empty());
        assert(assigned.skip(0) =~= assigned);
        assert(Seq::<BlockView>::empty().reverse() + assigned =~= assigned);
    }
}

/// In a block that is in its place, every section holds the bytes that the
/// file has at the place of the section.
pub proof fn lemma_in_place_is_faithful(
    b: BlockView,
    origin: int,
    phdrs: Seq<ProgramHeader>,
    bin: Seq<u8>,
)
    requires
        in_place(b, origin, phdrs, bin),
    ensures
        faithful(b, bin, origin),
    decreases b,
{
    let s = b->Segment_0;
    assert forall|k: int| 0 <= k < s.blocks.len() implies faithful(
        #[trigger] s.blocks[k],
        bin,
        origin + offset_key(s.blocks[k]),
    ) by {
        let c = s.blocks[k];
        match c {
            BlockView::Segment(cs) => {
                lemma_in_place_is_faithful(c, origin + cs.phdr.offset, phdrs, bin);
            },
            BlockView::Section(sec) => {
                let h = section_at(sec.hdr, origin + sec.hdr.offset);
                if !h.is_nobits() {
                    assert(sec.content.len() == h.size);
                }
            },
            _ => {},
        }
    }
}

} // verus!
