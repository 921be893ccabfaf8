//! What the tree holds: each program header once, as a segment at its
//! place in the file; each section whose start some segment holds, once,
//! at its place in the file; and no other segment or section.

use crate::block::BlockView;
use crate::builder::{
    adopt, assign_sections, fill_roots, filled, filled_upto, first_container, gap_before,
    gap_behind, insert_by_offset, is_container, is_first_container, is_narrowest_fit,
    lemma_insert_len, lemma_sorted_len, narrowest_fit, nest_from, nested_roots, offset_key,
    root_with_sections, section_block, sections_of, sort_by_offset, sorted_upto, spec_tree,
};
use crate::phdr::ProgramHeader;
use crate::placement::{at_origin, section_at};
use crate::segment::SegmentView;
use crate::shdr::SectionHeaderView;
use vstd::multiset::Multiset;
use vstd::prelude::*;

verus! {

/// A segment or a section that a tree holds, by its header with the file
/// position as its offset.
pub enum Held {
    Segment(ProgramHeader),
    Section(SectionHeaderView),
}

/// The segments and sections in the block `c`, a child of a segment that
/// starts at file position `origin` (a root counts as a child of the file,
/// which starts at 0): `c` itself where it is one, and those inside it,
/// each with its file position as its offset and as often as it occurs.
pub open spec fn held_in(c: BlockView, origin: int) -> Multiset<Held>
    decreases c, 0nat,
{
    match c {
        BlockView::Segment(s) => Multiset::singleton(
            Held::Segment(at_origin(s.phdr, origin + s.phdr.offset)),
        ).add(held_upto(s.blocks, origin + s.phdr.offset, s.blocks.len())),
        BlockView::Section(s) => Multiset::singleton(
            Held::Section(section_at(s.hdr, origin + s.hdr.offset)),
        ),
        _ => Multiset::empty(),
    }
}

/// The segments and sections in the first `n` of `blocks`, children of a
/// segment that starts at file position `origin`.
pub open spec fn held_upto(blocks: Seq<BlockView>, origin: int, n: nat) -> Multiset<Held>
    decreases blocks, n,
{
    if n == 0 || n > blocks.len() {
        Multiset::empty()
    } else {
        held_upto(blocks, origin, (n - 1) as nat).add(held_in(blocks[n - 1], origin))
    }
}

/// The segments and sections in `blocks`, children of a segment that
/// starts at file position `origin`.
pub open spec fn held_among(blocks: Seq<BlockView>, origin: int) -> Multiset<Held> {
    held_upto(blocks, origin, blocks.len())
}

/// Those of the first `n` section headers whose start some segment holds,
/// each as often as it stands among them.
pub open spec fn placed_sections(
    phdrs: Seq<ProgramHeader>,
    shdrs: Seq<SectionHeaderView>,
    n: nat,
) -> Multiset<Held>
    decreases n,
{
    if n == 0 || n > shdrs.len() {
        Multiset::empty()
    } else if narrowest_fit(phdrs, shdrs[n - 1]) is Some {
        placed_sections(phdrs, shdrs, (n - 1) as nat).add(
            Multiset::singleton(Held::Section(shdrs[n - 1])),
        )
    } else {
        placed_sections(phdrs, shdrs, (n - 1) as nat)
    }
}

/// The first `n` program headers, each as often as it stands among them.
pub open spec fn table_segments(phdrs: Seq<ProgramHeader>, n: nat) -> Multiset<Held>
    decreases n,
{
    if n == 0 || n > phdrs.len() {
        Multiset::empty()
    } else {
        table_segments(phdrs, (n - 1) as nat).add(Multiset::singleton(Held::Segment(phdrs[n - 1])))
    }
}

/// What the first `n` blocks hold depends on those blocks only.
pub proof fn lemma_held_prefix(a: Seq<BlockView>, b: Seq<BlockView>, origin: int, n: nat)
    requires
        n <= a.len(),
        n <= b.len(),
        forall|i: int| 0 <= i < n ==> a[i] == b[i],
    ensures
        held_upto(a, origin, n) == held_upto(b, origin, n),
    decreases n,
{
    if n > 0 {
        lemma_held_prefix(a, b, origin, (n - 1) as nat);
    }
}

/// Two lists put together hold what the one holds and what the other holds.
pub proof fn lemma_held_concat(a: Seq<BlockView>, b: Seq<BlockView>, origin: int, k: nat)
    requires
        k <= b.len(),
    ensures
        held_upto(a + b, origin, a.len() + k) == held_among(a, origin).add(
            held_upto(b, origin, k),
        ),
    decreases k,
{
    if k == 0 {
        lemma_held_prefix(a + b, a, origin, a.len());
        assert(held_among(a, origin).add(held_upto(b, origin, 0)) =~= held_among(
            a,
            origin,
        ));
    } else {
        lemma_held_concat(a, b, origin, (k - 1) as nat);
        assert((a + b)[a.len() + k - 1] == b[k - 1]);
        assert(held_upto(a + b, origin, a.len() + k) =~= held_among(a, origin).add(
            held_upto(b, origin, k),
        ));
    }
}

/// A list of one block holds what the block holds.
pub proof fn lemma_held_single(c: BlockView, origin: int)
    ensures
        held_among(seq![c], origin) == held_in(c, origin),
{
    assert(held_upto(seq![c], origin, 0) =~= Multiset::empty());
    assert(held_among(seq![c], origin) =~= held_in(c, origin));
}

/// A list holds what it holds without one of its blocks, and what that
/// block holds.
pub proof fn lemma_held_remove(blocks: Seq<BlockView>, origin: int, i: int)
    requires
        0 <= i < blocks.len(),
    ensures
        held_among(blocks, origin) == held_among(blocks.remove(i), origin).add(
            held_in(blocks[i], origin),
        ),
{
    let front = blocks.take(i);
    let back = blocks.skip(i + 1);
    let one = seq![blocks[i]];
    assert(blocks =~= front + one + back);
    assert(blocks.remove(i) =~= front + back);
    lemma_held_single(blocks[i], origin);
    lemma_held_concat(front, one, origin, 1);
    lemma_held_concat(front + one, back, origin, back.len());
    lemma_held_concat(front, back, origin, back.len());
    assert(held_among(blocks, origin) =~= held_among(blocks.remove(i), origin).add(
        held_in(blocks[i], origin),
    ));
}

/// A list with a block put in place of another holds what the list holds
/// without the other, and what the block holds.
pub proof fn lemma_held_update(blocks: Seq<BlockView>, origin: int, i: int, c: BlockView)
    requires
        0 <= i < blocks.len(),
    ensures
        held_among(blocks.update(i, c), origin) == held_among(
            blocks.remove(i),
            origin,
        ).add(held_in(c, origin)),
{
    let changed = blocks.update(i, c);
    assert(changed.remove(i) =~= blocks.remove(i));
    lemma_held_remove(changed, origin, i);
}

/// A list with a block put in by offset holds what the list holds and what
/// the block holds.
pub proof fn lemma_held_insert(blocks: Seq<BlockView>, b: BlockView, origin: int)
    ensures
        held_among(insert_by_offset(blocks, b), origin) == held_among(blocks, origin).add(
            held_in(b, origin),
        ),
    decreases blocks.len(),
{
    lemma_insert_len(blocks, b);
    if blocks.len() == 0 || offset_key(blocks.last()) <= offset_key(b) {
        lemma_held_single(b, origin);
        lemma_held_concat(blocks, seq![b], origin, 1);
        assert(blocks.push(b) =~= blocks + seq![b]);
    } else {
        let rest = blocks.drop_last();
        let last = blocks.last();
        lemma_held_insert(rest, b, origin);
        lemma_insert_len(rest, b);
        let inner = insert_by_offset(rest, b);
        lemma_held_single(last, origin);
        lemma_held_concat(inner, seq![last], origin, 1);
        assert(inner.push(last) =~= inner + seq![last]);
        lemma_held_concat(rest, seq![last], origin, 1);
        assert(blocks =~= rest + seq![last]);
        assert(held_among(insert_by_offset(blocks, b), origin) =~= held_among(
            blocks,
            origin,
        ).add(held_in(b, origin)));
    }
}

/// Putting blocks in order of offset neither adds nor loses a segment or a
/// section.
pub proof fn lemma_held_sorted(blocks: Seq<BlockView>, origin: int, n: nat)
    requires
        n <= blocks.len(),
    ensures
        held_among(sorted_upto(blocks, n), origin) == held_upto(blocks, origin, n),
    decreases n,
{
    lemma_sorted_len(blocks, n);
    if n > 0 {
        lemma_held_sorted(blocks, origin, (n - 1) as nat);
        lemma_held_insert(sorted_upto(blocks, (n - 1) as nat), blocks[n - 1], origin);
    }
}

/// A root that takes in another root holds what both held, each segment and
/// section at the file position that it had.
pub proof fn lemma_held_adopt(c: BlockView, item: BlockView)
    requires
        is_container(c, item),
    ensures
        held_in(adopt(c, item), 0) == held_in(c, 0).add(held_in(item, 0)),
{
    let cs = c->Segment_0;
    let is = item->Segment_0;
    let moved = BlockView::Segment(
        SegmentView {
            phdr: ProgramHeader { offset: (is.phdr.offset - cs.phdr.offset) as u64, ..is.phdr },
            blocks: is.blocks,
        },
    );
    let pushed = cs.blocks.push(moved);
    let o = cs.phdr.offset as int;
    lemma_held_sorted(pushed, o, pushed.len());
    lemma_held_single(moved, o);
    lemma_held_concat(cs.blocks, seq![moved], o, 1);
    assert(pushed =~= cs.blocks + seq![moved]);
    assert(at_origin(moved->Segment_0.phdr, is.phdr.offset as int) == at_origin(
        is.phdr,
        is.phdr.offset as int,
    ));
    assert(held_in(moved, o) == held_in(item, 0));
    assert(adopt(c, item)->Segment_0.blocks == sort_by_offset(pushed));
    assert(held_in(adopt(c, item), 0) =~= held_in(c, 0).add(held_in(item, 0)));
}

/// Nesting the roots neither adds nor loses a segment or a section, and
/// leaves each at its file position.
pub proof fn lemma_held_nest(blocks: Seq<BlockView>, idx: nat)
    ensures
        held_among(nest_from(blocks, idx), 0) == held_among(blocks, 0),
    decreases blocks.len() - idx,
{
    if idx < blocks.len() {
        let item = blocks[idx as int];
        let rest = blocks.remove(idx as int);
        lemma_held_remove(blocks, 0, idx as int);
        match first_container(rest, item) {
            Some(j) => {
                if 0 <= j < rest.len() {
                    assert(is_first_container(rest, item, j));
                    let next = rest.update(j, adopt(rest[j], item));
                    lemma_held_adopt(rest[j], item);
                    lemma_held_update(rest, 0, j, adopt(rest[j], item));
                    lemma_held_remove(rest, 0, j);
                    lemma_held_nest(next, idx);
                    assert(held_among(next, 0) =~= held_among(blocks, 0));
                }
            },
            None => {
                let next = seq![item] + rest;
                lemma_held_single(item, 0);
                lemma_held_concat(seq![item], rest, 0, rest.len());
                lemma_held_nest(next, idx + 1);
                assert(held_among(next, 0) =~= held_among(blocks, 0));
            },
        }
    }
}

/// A list turned round holds what it held.
pub proof fn lemma_held_reverse(blocks: Seq<BlockView>, origin: int)
    ensures
        held_among(blocks.reverse(), origin) == held_among(blocks, origin),
    decreases blocks.len(),
{
    if blocks.len() > 0 {
        let rest = blocks.drop_last();
        let last = blocks.last();
        lemma_held_reverse(rest, origin);
        lemma_held_prefix(blocks, rest, origin, rest.len());
        assert(blocks.reverse() =~= seq![last] + rest.reverse());
        lemma_held_single(last, origin);
        lemma_held_concat(seq![last], rest.reverse(), origin, rest.len());
        assert(held_among(blocks.reverse(), origin) =~= held_among(blocks, origin));
    } else {
        assert(blocks.reverse() =~= blocks);
    }
}

/// Filling the gaps of a block neither adds nor loses a segment or a
/// section.
pub proof fn lemma_held_filled(c: BlockView, bin: Seq<u8>, origin: int)
    ensures
        held_in(filled(c, bin, origin + offset_key(c)), origin) == held_in(c, origin),
    decreases c, 0nat,
{
    match c {
        BlockView::Segment(s) => {
            let o = origin + s.phdr.offset;
            let front = filled_upto(s.blocks, bin, o, s.blocks.len());
            let tail = gap_behind(s, bin, o);
            lemma_held_filled_upto(s.blocks, bin, o, s.blocks.len());
            lemma_held_concat(front, tail, o, tail.len());
            assert(held_among(tail, o) =~= Multiset::empty()) by {
                if tail.len() > 0 {
                    lemma_held_single(tail[0], o);
                    assert(tail =~= seq![tail[0]]);
                }
            }
            assert(held_among(front + tail, o) =~= held_among(front, o));
            assert(offset_key(c) == s.phdr.offset);
        },
        _ => {},
    }
}

/// Filling the gaps in front of and inside the first `n` children of a
/// segment neither adds nor loses a segment or a section.
pub proof fn lemma_held_filled_upto(
    children: Seq<BlockView>,
    bin: Seq<u8>,
    origin: int,
    n: nat,
)
    requires
        n <= children.len(),
    ensures
        held_among(filled_upto(children, bin, origin, n), origin) == held_upto(
            children,
            origin,
            n,
        ),
    decreases children, n,
{
    if n > 0 {
        let prev = filled_upto(children, bin, origin, (n - 1) as nat);
        let c = children[n - 1];
        let gap = gap_before(children, bin, origin, n - 1);
        let fc = filled(c, bin, origin + offset_key(c));
        lemma_held_filled_upto(children, bin, origin, (n - 1) as nat);
        lemma_held_filled(c, bin, origin);
        lemma_held_concat(prev, gap, origin, gap.len());
        assert(held_among(gap, origin) =~= Multiset::empty()) by {
            if gap.len() > 0 {
                lemma_held_single(gap[0], origin);
                assert(gap =~= seq![gap[0]]);
            }
        }
        lemma_held_single(fc, origin);
        lemma_held_concat(prev + gap, seq![fc], origin, 1);
        assert(held_among(prev + gap + seq![fc], origin) =~= held_upto(
            children,
            origin,
            n,
        ));
    }
}

/// The roots once the first `n` sections have gone to their narrowest fits.
pub open spec fn roots_with_sections(
    phdrs: Seq<ProgramHeader>,
    shdrs: Seq<SectionHeaderView>,
    bin: Seq<u8>,
    n: nat,
) -> Seq<BlockView> {
    Seq::new(phdrs.len(), |i: int| root_with_sections(phdrs, shdrs, bin, i, n))
}

/// Roots without children hold themselves and nothing else.
pub proof fn lemma_held_of_empty_roots(
    phdrs: Seq<ProgramHeader>,
    shdrs: Seq<SectionHeaderView>,
    bin: Seq<u8>,
    k: nat,
)
    requires
        k <= phdrs.len(),
    ensures
        held_upto(roots_with_sections(phdrs, shdrs, bin, 0), 0, k) == table_segments(phdrs, k),
    decreases k,
{
    if k > 0 {
        lemma_held_of_empty_roots(phdrs, shdrs, bin, (k - 1) as nat);
        let roots = roots_with_sections(phdrs, shdrs, bin, 0);
        assert(at_origin(phdrs[k - 1], phdrs[k - 1].offset as int) == phdrs[k - 1]);
        assert(held_in(roots[k - 1], 0) =~= Multiset::singleton(Held::Segment(phdrs[k - 1])));
    }
}

/// Once the first `n` sections have gone to their narrowest fits, the
/// roots hold themselves and those of the sections whose start some segment
/// holds, each at its file position.
pub proof fn lemma_held_assigned(
    phdrs: Seq<ProgramHeader>,
    shdrs: Seq<SectionHeaderView>,
    bin: Seq<u8>,
    n: nat,
)
    requires
        n <= shdrs.len(),
    ensures
        held_among(roots_with_sections(phdrs, shdrs, bin, n), 0) == table_segments(
            phdrs,
            phdrs.len(),
        ).add(placed_sections(phdrs, shdrs, n)),
    decreases n,
{
    if n == 0 {
        lemma_held_of_empty_roots(phdrs, shdrs, bin, phdrs.len());
        assert(table_segments(phdrs, phdrs.len()).add(placed_sections(phdrs, shdrs, 0))
            =~= table_segments(phdrs, phdrs.len()));
    } else {
        lemma_held_assigned(phdrs, shdrs, bin, (n - 1) as nat);
        let before = roots_with_sections(phdrs, shdrs, bin, (n - 1) as nat);
        let after = roots_with_sections(phdrs, shdrs, bin, n);
        let s = shdrs[n - 1];
        match narrowest_fit(phdrs, s) {
            Some(i) => {
                assert(is_narrowest_fit(phdrs, s, i));
                assert(after =~= before.update(i, after[i])) by {
                    assert forall|k: int| 0 <= k < after.len() && k != i implies after[k]
                        == before[k] by {
                        assert(sections_of(phdrs, shdrs, bin, k, n) == sections_of(
                            phdrs,
                            shdrs,
                            bin,
                            k,
                            (n - 1) as nat,
                        ));
                    }
                }
                let old = sections_of(phdrs, shdrs, bin, i, (n - 1) as nat);
                let x = section_block(phdrs[i], s, bin);
                let o = phdrs[i].offset as int;
                assert(after[i]->Segment_0.blocks == old.push(x));
                lemma_held_single(x, o);
                lemma_held_concat(old, seq![x], o, 1);
                assert(old.push(x) =~= old + seq![x]);
                assert(section_at(x->Section_0.hdr, o + x->Section_0.hdr.offset) == s);
                assert(held_in(after[i], 0) =~= held_in(before[i], 0).add(
                    Multiset::singleton(Held::Section(s)),
                ));
                lemma_held_update(before, 0, i, after[i]);
                lemma_held_remove(before, 0, i);
                let others = held_among(before.remove(i), 0);
                let one = Multiset::singleton(Held::Section(s));
                let table = table_segments(phdrs, phdrs.len());
                let placed = placed_sections(phdrs, shdrs, (n - 1) as nat);
                assert(others.add(held_in(before[i], 0).add(one)) =~= others.add(
                    held_in(before[i], 0),
                ).add(one));
                assert(table.add(placed.add(one)) =~= table.add(placed).add(one));
                assert(held_among(after, 0) =~= table_segments(phdrs, phdrs.len()).add(
                    placed_sections(phdrs, shdrs, n),
                ));
            },
            None => {
                assert(after =~= before) by {
                    assert forall|k: int| 0 <= k < after.len() implies after[k] == before[k] by {
                        assert(sections_of(phdrs, shdrs, bin, k, n) == sections_of(
                            phdrs,
                            shdrs,
                            bin,
                            k,
                            (n - 1) as nat,
                        ));
                    }
                }
            },
        }
    }
}

/// Filling the gaps of each root neither adds nor loses a segment or a
/// section.
pub proof fn lemma_held_fill_roots(roots: Seq<BlockView>, bin: Seq<u8>, k: nat)
    requires
        k <= roots.len(),
    ensures
        held_upto(fill_roots(roots, bin), 0, k) == held_upto(roots, 0, k),
    decreases k,
{
    if k > 0 {
        lemma_held_fill_roots(roots, bin, (k - 1) as nat);
        lemma_held_filled(roots[k - 1], bin, 0);
    }
}

/// The tree of a file holds each program header exactly as often as the
/// program-header table names it, as a segment at its place in the file,
/// and each section whose start some segment holds exactly as often as
/// the section-header table names it, at its place in the file; it holds
/// no other segment or section. So no section is set into two segments,
/// and where segments nest none is lost and none stays behind as a root.
pub proof fn lemma_tree_holds_each_once(
    phdrs: Seq<ProgramHeader>,
    shdrs: Seq<SectionHeaderView>,
    bin: Seq<u8>,
)
    ensures
        held_among(spec_tree(phdrs, shdrs, bin), 0) == table_segments(phdrs, phdrs.len()).add(
            placed_sections(phdrs, shdrs, shdrs.len()),
        ),
{
    let assigned = assign_sections(phdrs, shdrs, bin);
    assert(assigned =~= roots_with_sections(phdrs, shdrs, bin, shdrs.len()));
    lemma_held_assigned(phdrs, shdrs, bin, shdrs.len());
    lemma_held_nest(assigned, 0);
    lemma_held_reverse(nest_from(assigned, 0), 0);
    let roots = nested_roots(phdrs, shdrs, bin);
    lemma_held_fill_roots(roots, bin, roots.len());
}

} // verus!
