//! What the block tree of a file covers: where no two siblings overlap,
//! the blocks of the tree follow one another without a gap, and where the
//! segments lie inside one another and the outermost follow one another,
//! the tree flattens to the bytes of the file.

use crate::block::{flat, flat_all, flat_upto, BlockView};
use crate::builder::{
    can_fill, filled, footprint, into_blocks_ok, nested_roots, offset_key, spec_into_blocks,
    spec_tree, tree_ok,
};
use crate::header::hdr_shstrndx;
use crate::layout::{
    is_file_range, lemma_file_ranges_join, lemma_fill_closes_gaps, lemma_fill_covers,
    lemma_fill_sets_siblings_apart, offsets_match, spaced, well_laid,
};
use crate::phdr::{spec_program_headers, ProgramHeader};
use crate::placement::{in_place, lemma_in_place_is_faithful, lemma_nested_roots_in_place};
use crate::shdr::{spec_section_headers, SectionHeaderView};
use vstd::prelude::*;

verus! {

/// Whether in each of `roots`, before its gaps are filled, the children of
/// every segment lie inside the segment without overlap.
pub open spec fn roots_well_laid(roots: Seq<BlockView>) -> bool {
    forall|i: int| 0 <= i < roots.len() ==> well_laid(#[trigger] roots[i])
}

/// Whether each of `roots` but the first starts in the file where the root
/// before it ends.
pub open spec fn roots_abut(roots: Seq<BlockView>) -> bool {
    forall|i: int|
        0 < i < roots.len() ==> offset_key(#[trigger] roots[i]) == offset_key(roots[i - 1])
            + footprint(roots[i - 1])
}

/// The file position at which the first `n` of `roots` end: the end of
/// root `n - 1`, and the start of the first root where `n` is 0.
pub open spec fn roots_end(roots: Seq<BlockView>, n: nat) -> int {
    if roots.len() == 0 {
        0
    } else if n == 0 {
        offset_key(roots[0]) as int
    } else {
        offset_key(roots[n - 1]) + footprint(roots[n - 1])
    }
}

/// Whether in none of `roots`, before its gaps are filled, two siblings
/// overlap.
pub open spec fn roots_spaced(roots: Seq<BlockView>) -> bool {
    forall|i: int| 0 <= i < roots.len() ==> spaced(#[trigger] roots[i])
}

/// In the tree of a file in which no two siblings overlap, every block
/// that has an offset sits at it: with each parent, the bytes of the blocks
/// in front of a child are as many as the child's offset says, so each
/// sibling ends where the next begins.
pub proof fn lemma_tree_siblings_abut(
    phdrs: Seq<ProgramHeader>,
    shdrs: Seq<SectionHeaderView>,
    bin: Seq<u8>,
)
    requires
        tree_ok(phdrs, shdrs, bin),
        roots_spaced(nested_roots(phdrs, shdrs, bin)),
    ensures
        spec_tree(phdrs, shdrs, bin).len() == nested_roots(phdrs, shdrs, bin).len(),
        forall|i: int|
            0 <= i < spec_tree(phdrs, shdrs, bin).len() ==> offsets_match(
                #[trigger] spec_tree(phdrs, shdrs, bin)[i],
            ),
{
    let roots = nested_roots(phdrs, shdrs, bin);
    let tree = spec_tree(phdrs, shdrs, bin);
    assert forall|i: int| 0 <= i < tree.len() implies offsets_match(#[trigger] tree[i]) by {
        assert(spaced(roots[i]));
        assert(can_fill(roots[i], bin.len() as int, offset_key(roots[i]) as int));
        lemma_fill_sets_siblings_apart(roots[i], bin, offset_key(roots[i]) as int);
    }
}

/// In the tree of a file whose segments are laid out inside one another
/// without overlap, each root takes as many bytes as its header says.
pub proof fn lemma_tree_roots_fill_their_range(
    phdrs: Seq<ProgramHeader>,
    shdrs: Seq<SectionHeaderView>,
    bin: Seq<u8>,
)
    requires
        tree_ok(phdrs, shdrs, bin),
        roots_well_laid(nested_roots(phdrs, shdrs, bin)),
    ensures
        spec_tree(phdrs, shdrs, bin).len() == nested_roots(phdrs, shdrs, bin).len(),
        forall|i: int|
            0 <= i < spec_tree(phdrs, shdrs, bin).len() ==> flat(
                #[trigger] spec_tree(phdrs, shdrs, bin)[i],
            ).len() == footprint(nested_roots(phdrs, shdrs, bin)[i]),
{
    let roots = nested_roots(phdrs, shdrs, bin);
    let tree = spec_tree(phdrs, shdrs, bin);
    assert forall|i: int| 0 <= i < tree.len() implies flat(#[trigger] tree[i]).len() == footprint(
        roots[i],
    ) by {
        assert(well_laid(roots[i]));
        assert(can_fill(roots[i], bin.len() as int, offset_key(roots[i]) as int));
        lemma_fill_closes_gaps(roots[i], bin, offset_key(roots[i]) as int);
    }
}

/// The first `n` roots of a tree in which the children of every segment
/// lie inside it without overlap, and whose roots follow one another in
/// the file, flatten to the
/// bytes of the file from the start of the first root to the end of root
/// `n - 1`.
pub proof fn lemma_roots_cover(
    phdrs: Seq<ProgramHeader>,
    shdrs: Seq<SectionHeaderView>,
    bin: Seq<u8>,
    n: nat,
)
    requires
        tree_ok(phdrs, shdrs, bin),
        roots_well_laid(nested_roots(phdrs, shdrs, bin)),
        roots_abut(nested_roots(phdrs, shdrs, bin)),
        n <= nested_roots(phdrs, shdrs, bin).len(),
    ensures
        flat_upto(spec_tree(phdrs, shdrs, bin), n).len() == roots_end(
            nested_roots(phdrs, shdrs, bin),
            n,
        ) - roots_end(nested_roots(phdrs, shdrs, bin), 0),
        is_file_range(
            flat_upto(spec_tree(phdrs, shdrs, bin), n),
            bin,
            roots_end(nested_roots(phdrs, shdrs, bin), 0),
        ),
    decreases n,
{
    let roots = nested_roots(phdrs, shdrs, bin);
    let tree = spec_tree(phdrs, shdrs, bin);
    if n > 0 {
        lemma_roots_cover(phdrs, shdrs, bin, (n - 1) as nat);
        let r = roots[n - 1];
        let o = offset_key(r) as int;
        lemma_nested_roots_in_place(phdrs, shdrs, bin);
        assert(in_place(r, o, phdrs, bin));
        lemma_in_place_is_faithful(r, o, phdrs, bin);
        assert(well_laid(r));
        assert(can_fill(r, bin.len() as int, o));
        lemma_fill_covers(r, bin, o);
        assert(tree[n - 1] == filled(r, bin, o));
        if n > 1 {
            assert(offset_key(roots[n - 1]) == offset_key(roots[n - 2]) + footprint(roots[n - 2]));
        }
        lemma_file_ranges_join(
            flat_upto(tree, (n - 1) as nat),
            flat(tree[n - 1]),
            bin,
            roots_end(roots, 0),
        );
    }
}

/// Where in every segment of a file the children lie inside the segment
/// without overlap and the outermost segments follow one another, the tree
/// of the file flattens to
/// the bytes of the file from the start of the first outermost segment to
/// the end of the last. Where the first starts at 0, these are the bytes of
/// the file from its first byte on.
pub proof fn lemma_tree_covers_file(bin: Seq<u8>)
    requires
        into_blocks_ok(bin),
        roots_well_laid(
            nested_roots(
                spec_program_headers(bin),
                spec_section_headers(bin, hdr_shstrndx(bin)),
                bin,
            ),
        ),
        roots_abut(
            nested_roots(
                spec_program_headers(bin),
                spec_section_headers(bin, hdr_shstrndx(bin)),
                bin,
            ),
        ),
    ensures
        ({
            let roots = nested_roots(
                spec_program_headers(bin),
                spec_section_headers(bin, hdr_shstrndx(bin)),
                bin,
            );
            let start = roots_end(roots, 0);
            let end = roots_end(roots, roots.len());
            &&& flat_all(spec_into_blocks(bin)).len() == end - start
            &&& is_file_range(flat_all(spec_into_blocks(bin)), bin, start)
            &&& start == 0 && end > 0 ==> flat_all(spec_into_blocks(bin)) == bin.subrange(0, end)
        }),
{
    let phdrs = spec_program_headers(bin);
    let shdrs = spec_section_headers(bin, hdr_shstrndx(bin));
    let roots = nested_roots(phdrs, shdrs, bin);
    lemma_roots_cover(phdrs, shdrs, bin, roots.len());
}

} // verus!
