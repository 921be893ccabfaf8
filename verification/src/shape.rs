//! The shape of a block tree: what is left of it when the bytes it holds
//! are forgotten and only their number is kept. The shape of the tree of a
//! file depends on the program headers and the section headers of the file
//! alone, not on its bytes.

use crate::block::BlockView;
use crate::builder::{
    adopt, assign_sections, can_fill, can_fill_upto, cursor_before, filled, filled_upto,
    first_container, footprint, gap_before, insert_by_offset, is_container, is_first_container,
    lemma_insert_len, narrowest_fit, nest_from, nested_roots, offset_key, section_block,
    section_in_file, sections_in_file, sections_of, sorted_upto, spec_tree, tree_ok,
};
use crate::phdr::ProgramHeader;
use crate::shdr::SectionHeaderView;
use vstd::prelude::*;

verus! {

/// Whether two blocks have one shape: they are of one kind, with equal
/// headers and as many bytes, and the children of two segments have one
/// shape pair by pair.
pub open spec fn same_shape(a: BlockView, b: BlockView) -> bool
    decreases a,
{
    match (a, b) {
        (BlockView::Segment(s), BlockView::Segment(t)) => {
            &&& s.phdr == t.phdr
            &&& s.blocks.len() == t.blocks.len()
            &&& forall|k: int|
                0 <= k < s.blocks.len() ==> same_shape(#[trigger] s.blocks[k], t.blocks[k])
        },
        (BlockView::Section(s), BlockView::Section(t)) => s.hdr == t.hdr && s.content.len()
            == t.content.len(),
        (BlockView::RawDat(d), BlockView::RawDat(e)) => d.len() == e.len(),
        (BlockView::Padding(d), BlockView::Padding(e)) => d.len() == e.len(),
        _ => false,
    }
}

/// Whether two lists of blocks have one shape: they are as long, and their
/// blocks have one shape pair by pair.
pub open spec fn same_shapes(a: Seq<BlockView>, b: Seq<BlockView>) -> bool {
    a.len() == b.len() && forall|k: int| 0 <= k < a.len() ==> same_shape(#[trigger] a[k], b[k])
}

/// Two segments have one shape exactly when their headers are equal and
/// their children have one shape.
pub proof fn lemma_same_shape_segments(a: BlockView, b: BlockView)
    requires
        a is Segment,
        b is Segment,
    ensures
        same_shape(a, b) <==> a->Segment_0.phdr == b->Segment_0.phdr && same_shapes(
            a->Segment_0.blocks,
            b->Segment_0.blocks,
        ),
{
    let s = a->Segment_0;
    let t = b->Segment_0;
    if same_shape(a, b) {
        assert forall|k: int| 0 <= k < s.blocks.len() implies same_shape(
            #[trigger] s.blocks[k],
            t.blocks[k],
        ) by {}
    }
}

/// Blocks of one shape are of one kind, have one offset and take as much
/// room.
pub proof fn lemma_same_shape_keys(a: BlockView, b: BlockView)
    requires
        same_shape(a, b),
    ensures
        offset_key(a) == offset_key(b),
        footprint(a) == footprint(b),
        a is Segment <==> b is Segment,
        a is Section <==> b is Section,
        a is Segment ==> a->Segment_0.phdr == b->Segment_0.phdr,
{
}

/// Putting blocks of one shape into lists of one shape gives lists of one
/// shape.
pub proof fn lemma_insert_same_shape(
    a: Seq<BlockView>,
    b: Seq<BlockView>,
    x: BlockView,
    y: BlockView,
)
    requires
        same_shapes(a, b),
        same_shape(x, y),
    ensures
        same_shapes(insert_by_offset(a, x), insert_by_offset(b, y)),
    decreases a.len(),
{
    lemma_same_shape_keys(x, y);
    lemma_insert_len(a, x);
    lemma_insert_len(b, y);
    if a.len() == 0 {
    } else {
        assert(same_shape(a[a.len() - 1], b[b.len() - 1]));
        lemma_same_shape_keys(a.last(), b.last());
        if offset_key(a.last()) <= offset_key(x) {
            assert forall|k: int| 0 <= k < a.len() + 1 implies same_shape(
                #[trigger] insert_by_offset(a, x)[k],
                insert_by_offset(b, y)[k],
            ) by {
                if k < a.len() {
                    assert(same_shape(a[k], b[k]));
                }
            }
        } else {
            let a1 = a.drop_last();
            let b1 = b.drop_last();
            assert forall|k: int| 0 <= k < a1.len() implies same_shape(#[trigger] a1[k], b1[k]) by {
                assert(same_shape(a[k], b[k]));
            }
            lemma_insert_same_shape(a1, b1, x, y);
            lemma_insert_len(a1, x);
            lemma_insert_len(b1, y);
            let ia = insert_by_offset(a1, x);
            let ib = insert_by_offset(b1, y);
            assert forall|k: int| 0 <= k < a.len() + 1 implies same_shape(
                #[trigger] insert_by_offset(a, x)[k],
                insert_by_offset(b, y)[k],
            ) by {
                if k < ia.len() {
                    assert(same_shape(ia[k], ib[k]));
                }
            }
        }
    }
}

/// Lists of one shape, put in order of offset, have one shape.
pub proof fn lemma_sorted_same_shape(a: Seq<BlockView>, b: Seq<BlockView>, n: nat)
    requires
        same_shapes(a, b),
        n <= a.len(),
    ensures
        same_shapes(sorted_upto(a, n), sorted_upto(b, n)),
    decreases n,
{
    if n > 0 {
        lemma_sorted_same_shape(a, b, (n - 1) as nat);
        assert(same_shape(a[n - 1], b[n - 1]));
        lemma_insert_same_shape(
            sorted_upto(a, (n - 1) as nat),
            sorted_upto(b, (n - 1) as nat),
            a[n - 1],
            b[n - 1],
        );
    }
}

/// Roots of one shape that take in roots of one shape have one shape.
pub proof fn lemma_adopt_same_shape(c: BlockView, d: BlockView, x: BlockView, y: BlockView)
    requires
        same_shape(c, d),
        same_shape(x, y),
    ensures
        same_shape(adopt(c, x), adopt(d, y)),
{
    lemma_same_shape_keys(c, d);
    lemma_same_shape_keys(x, y);
    match (c, x) {
        (BlockView::Segment(cs), BlockView::Segment(xs)) => {
            let ds = d->Segment_0;
            let ys = y->Segment_0;
            lemma_same_shape_segments(c, d);
            lemma_same_shape_segments(x, y);
            let mx = BlockView::Segment(
                crate::segment::SegmentView {
                    phdr: ProgramHeader {
                        offset: (xs.phdr.offset - cs.phdr.offset) as u64,
                        ..xs.phdr
                    },
                    blocks: xs.blocks,
                },
            );
            let my = BlockView::Segment(
                crate::segment::SegmentView {
                    phdr: ProgramHeader {
                        offset: (ys.phdr.offset - ds.phdr.offset) as u64,
                        ..ys.phdr
                    },
                    blocks: ys.blocks,
                },
            );
            lemma_same_shape_segments(mx, my);
            let pa = cs.blocks.push(mx);
            let pb = ds.blocks.push(my);
            assert forall|k: int| 0 <= k < pa.len() implies same_shape(#[trigger] pa[k], pb[k]) by {
                if k < cs.blocks.len() {
                    assert(same_shape(cs.blocks[k], ds.blocks[k]));
                }
            }
            lemma_sorted_same_shape(pa, pb, pa.len());
            lemma_same_shape_segments(adopt(c, x), adopt(d, y));
        },
        _ => {},
    }
}

/// In lists of one shape the same block is the first to contain a block of
/// one shape.
pub proof fn lemma_first_container_same_shape(
    a: Seq<BlockView>,
    b: Seq<BlockView>,
    x: BlockView,
    y: BlockView,
)
    requires
        same_shapes(a, b),
        same_shape(x, y),
    ensures
        first_container(a, x) == first_container(b, y),
        first_container(a, x) matches Some(j) ==> is_first_container(a, x, j)
            && is_first_container(b, y, j),
{
    lemma_same_shape_keys(x, y);
    assert forall|j: int| 0 <= j < a.len() implies is_container(a[j], x) == is_container(
        b[j],
        y,
    ) by {
        assert(same_shape(a[j], b[j]));
        lemma_same_shape_keys(a[j], b[j]);
    }
    assert forall|j: int| is_first_container(a, x, j) == is_first_container(b, y, j) by {
        if is_first_container(a, x, j) {
            assert forall|k: int| 0 <= k < j implies !is_container(#[trigger] b[k], y) by {
                assert(!is_container(a[k], x));
            }
        }
        if is_first_container(b, y, j) {
            assert forall|k: int| 0 <= k < j implies !is_container(#[trigger] a[k], x) by {
                assert(!is_container(b[k], y));
            }
        }
    }
    if exists|j: int| is_first_container(a, x, j) {
        let ja = choose|j: int| is_first_container(a, x, j);
        assert(is_first_container(b, y, ja));
        let jb = choose|j: int| is_first_container(b, y, j);
        assert(is_first_container(a, x, jb));
        if ja < jb {
            assert(!is_container(a[ja], x));
        }
        if jb < ja {
            assert(!is_container(a[jb], x));
        }
    } else {
        assert forall|j: int| !is_first_container(b, y, j) by {
            assert(!is_first_container(a, x, j));
        }
    }
}

/// Nesting lists of roots of one shape gives lists of one shape.
pub proof fn lemma_nest_same_shape(a: Seq<BlockView>, b: Seq<BlockView>, idx: nat)
    requires
        same_shapes(a, b),
    ensures
        same_shapes(nest_from(a, idx), nest_from(b, idx)),
    decreases a.len() - idx,
{
    if idx < a.len() {
        let x = a[idx as int];
        let y = b[idx as int];
        assert(same_shape(x, y));
        let ra = a.remove(idx as int);
        let rb = b.remove(idx as int);
        assert forall|k: int| 0 <= k < ra.len() implies same_shape(#[trigger] ra[k], rb[k]) by {
            if k < idx {
                assert(same_shape(a[k], b[k]));
            } else {
                assert(same_shape(a[k + 1], b[k + 1]));
            }
        }
        lemma_first_container_same_shape(ra, rb, x, y);
        match first_container(ra, x) {
            Some(j) => {
                assert(same_shape(ra[j], rb[j]));
                lemma_adopt_same_shape(ra[j], rb[j], x, y);
                let na = ra.update(j, adopt(ra[j], x));
                let nb = rb.update(j, adopt(rb[j], y));
                assert forall|k: int| 0 <= k < na.len() implies same_shape(
                    #[trigger] na[k],
                    nb[k],
                ) by {
                    if k != j {
                        assert(same_shape(ra[k], rb[k]));
                    }
                }
                lemma_nest_same_shape(na, nb, idx);
            },
            None => {
                let na = seq![x] + ra;
                let nb = seq![y] + rb;
                assert forall|k: int| 0 <= k < na.len() implies same_shape(
                    #[trigger] na[k],
                    nb[k],
                ) by {
                    if k > 0 {
                        assert(same_shape(ra[k - 1], rb[k - 1]));
                    }
                }
                lemma_nest_same_shape(na, nb, idx + 1);
            },
        }
    }
}

/// The blocks of the sections of a segment have one shape whatever the
/// bytes of the file, as long as the bytes of each section lie in the file.
pub proof fn lemma_sections_same_shape(
    phdrs: Seq<ProgramHeader>,
    shdrs: Seq<SectionHeaderView>,
    bin1: Seq<u8>,
    bin2: Seq<u8>,
    i: int,
    n: nat,
)
    requires
        sections_in_file(phdrs, shdrs, bin1.len()),
        sections_in_file(phdrs, shdrs, bin2.len()),
        n <= shdrs.len(),
    ensures
        same_shapes(
            sections_of(phdrs, shdrs, bin1, i, n),
            sections_of(phdrs, shdrs, bin2, i, n),
        ),
    decreases n,
{
    if n > 0 {
        lemma_sections_same_shape(phdrs, shdrs, bin1, bin2, i, (n - 1) as nat);
        let s = shdrs[n - 1];
        if narrowest_fit(phdrs, s) == Some(i) {
            assert(section_in_file(phdrs, s, bin1.len()));
            assert(section_in_file(phdrs, s, bin2.len()));
            let a = sections_of(phdrs, shdrs, bin1, i, (n - 1) as nat);
            let b = sections_of(phdrs, shdrs, bin2, i, (n - 1) as nat);
            let x = section_block(phdrs[i], s, bin1);
            let y = section_block(phdrs[i], s, bin2);
            assert(same_shape(x, y));
            assert forall|k: int| 0 <= k < a.len() + 1 implies same_shape(
                #[trigger] a.push(x)[k],
                b.push(y)[k],
            ) by {
                if k < a.len() {
                    assert(same_shape(a[k], b[k]));
                }
            }
        }
    }
}

/// Filling the gaps of blocks of one shape gives blocks of one shape,
/// whatever the bytes of the file, as long as the gaps can be filled.
pub proof fn lemma_filled_same_shape(
    a: BlockView,
    b: BlockView,
    bin1: Seq<u8>,
    bin2: Seq<u8>,
    origin: int,
)
    requires
        0 <= origin,
        same_shape(a, b),
        can_fill(a, bin1.len() as int, origin),
        can_fill(b, bin2.len() as int, origin),
    ensures
        same_shape(filled(a, bin1, origin), filled(b, bin2, origin)),
    decreases a, 0nat,
{
    lemma_same_shape_keys(a, b);
    match a {
        BlockView::Segment(s) => {
            let t = b->Segment_0;
            lemma_same_shape_segments(a, b);
            lemma_filled_children_same_shape(
                s.blocks,
                t.blocks,
                bin1,
                bin2,
                origin,
                s.blocks.len(),
            );
            assert(same_shape(s.blocks.last(), t.blocks.last()) || s.blocks.len() == 0);
            if s.blocks.len() > 0 {
                lemma_same_shape_keys(s.blocks.last(), t.blocks.last());
            }
            lemma_same_shape_segments(filled(a, bin1, origin), filled(b, bin2, origin));
        },
        _ => {},
    }
}

/// Filling the gaps in front of and inside children of one shape gives
/// lists of one shape.
pub proof fn lemma_filled_children_same_shape(
    a: Seq<BlockView>,
    b: Seq<BlockView>,
    bin1: Seq<u8>,
    bin2: Seq<u8>,
    origin: int,
    n: nat,
)
    requires
        0 <= origin,
        same_shapes(a, b),
        n <= a.len(),
        can_fill_upto(a, bin1.len() as int, origin, n),
        can_fill_upto(b, bin2.len() as int, origin, n),
    ensures
        same_shapes(filled_upto(a, bin1, origin, n), filled_upto(b, bin2, origin, n)),
    decreases a, n,
{
    if n > 0 {
        lemma_filled_children_same_shape(a, b, bin1, bin2, origin, (n - 1) as nat);
        let x = a[n - 1];
        let y = b[n - 1];
        assert(same_shape(x, y));
        lemma_same_shape_keys(x, y);
        if n > 1 {
            assert(same_shape(a[n - 2], b[n - 2]));
            lemma_same_shape_keys(a[n - 2], b[n - 2]);
        }
        assert(cursor_before(a, n - 1) == cursor_before(b, n - 1));
        lemma_filled_same_shape(x, y, bin1, bin2, origin + offset_key(x));
        let pa = filled_upto(a, bin1, origin, (n - 1) as nat);
        let pb = filled_upto(b, bin2, origin, (n - 1) as nat);
        let ga = gap_before(a, bin1, origin, n - 1);
        let gb = gap_before(b, bin2, origin, n - 1);
        let fa = filled(x, bin1, origin + offset_key(x));
        let fb = filled(y, bin2, origin + offset_key(y));
        assert(ga.len() == gb.len());
        let ca = pa + ga + seq![fa];
        let cb = pb + gb + seq![fb];
        assert forall|k: int| 0 <= k < ca.len() implies same_shape(#[trigger] ca[k], cb[k]) by {
            if k < pa.len() {
                assert(same_shape(pa[k], pb[k]));
            } else if k < pa.len() + ga.len() {
                assert(ca[k] == ga[0]);
                assert(cb[k] == gb[0]);
            } else {
                assert(ca[k] == fa);
                assert(cb[k] == fb);
            }
        }
    }
}

/// The roots of the tree before their gaps are filled have one shape
/// whatever the bytes of the file, as long as the bytes of each section lie
/// in the file.
pub proof fn lemma_nested_roots_same_shape(
    phdrs: Seq<ProgramHeader>,
    shdrs: Seq<SectionHeaderView>,
    bin1: Seq<u8>,
    bin2: Seq<u8>,
)
    requires
        sections_in_file(phdrs, shdrs, bin1.len()),
        sections_in_file(phdrs, shdrs, bin2.len()),
    ensures
        same_shapes(nested_roots(phdrs, shdrs, bin1), nested_roots(phdrs, shdrs, bin2)),
{
    let a = assign_sections(phdrs, shdrs, bin1);
    let b = assign_sections(phdrs, shdrs, bin2);
    assert forall|i: int| 0 <= i < a.len() implies same_shape(#[trigger] a[i], b[i]) by {
        lemma_sections_same_shape(phdrs, shdrs, bin1, bin2, i, shdrs.len());
        lemma_same_shape_segments(a[i], b[i]);
    }
    lemma_nest_same_shape(a, b, 0);
    let na = nest_from(a, 0);
    let nb = nest_from(b, 0);
    let ra = nested_roots(phdrs, shdrs, bin1);
    let rb = nested_roots(phdrs, shdrs, bin2);
    assert forall|i: int| 0 <= i < ra.len() implies same_shape(#[trigger] ra[i], rb[i]) by {
        assert(same_shape(na[na.len() - 1 - i], nb[nb.len() - 1 - i]));
    }
}

/// Whether the gaps of a block can be filled from a file of a given length
/// depends on the shape of the block only.
pub proof fn lemma_can_fill_same_shape(a: BlockView, b: BlockView, len: int, origin: int)
    requires
        same_shape(a, b),
        can_fill(a, len, origin),
    ensures
        can_fill(b, len, origin),
    decreases a, 0nat,
{
    lemma_same_shape_keys(a, b);
    match a {
        BlockView::Segment(s) => {
            let t = b->Segment_0;
            lemma_same_shape_segments(a, b);
            lemma_can_fill_children_same_shape(s.blocks, t.blocks, len, origin, s.blocks.len());
            if s.blocks.len() > 0 {
                assert(same_shape(s.blocks.last(), t.blocks.last()));
                lemma_same_shape_keys(s.blocks.last(), t.blocks.last());
            }
        },
        _ => {},
    }
}

/// Whether the gaps in front of and inside the first `n` children of a
/// segment can be filled depends on the shape of the children only.
pub proof fn lemma_can_fill_children_same_shape(
    a: Seq<BlockView>,
    b: Seq<BlockView>,
    len: int,
    origin: int,
    n: nat,
)
    requires
        same_shapes(a, b),
        n <= a.len(),
        can_fill_upto(a, len, origin, n),
    ensures
        can_fill_upto(b, len, origin, n),
    decreases a, n,
{
    if n > 0 {
        lemma_can_fill_children_same_shape(a, b, len, origin, (n - 1) as nat);
        let x = a[n - 1];
        let y = b[n - 1];
        assert(same_shape(x, y));
        lemma_same_shape_keys(x, y);
        if n > 1 {
            assert(same_shape(a[n - 2], b[n - 2]));
            lemma_same_shape_keys(a[n - 2], b[n - 2]);
        }
        assert(cursor_before(a, n - 1) == cursor_before(b, n - 1));
        lemma_can_fill_same_shape(x, y, len, origin + offset_key(x));
    }
}

/// The tree of a file has one shape whatever the bytes of the file: two
/// files with the same program headers and section headers, from both of
/// which the tree can be built, have trees of one shape.
pub proof fn lemma_tree_shape_is_of_headers(
    phdrs: Seq<ProgramHeader>,
    shdrs: Seq<SectionHeaderView>,
    bin1: Seq<u8>,
    bin2: Seq<u8>,
)
    requires
        tree_ok(phdrs, shdrs, bin1),
        tree_ok(phdrs, shdrs, bin2),
    ensures
        same_shapes(spec_tree(phdrs, shdrs, bin1), spec_tree(phdrs, shdrs, bin2)),
{
    lemma_nested_roots_same_shape(phdrs, shdrs, bin1, bin2);
    let ra = nested_roots(phdrs, shdrs, bin1);
    let rb = nested_roots(phdrs, shdrs, bin2);
    let ta = spec_tree(phdrs, shdrs, bin1);
    let tb = spec_tree(phdrs, shdrs, bin2);
    assert forall|i: int| 0 <= i < ta.len() implies same_shape(#[trigger] ta[i], tb[i]) by {
        assert(same_shape(ra[i], rb[i]));
        lemma_same_shape_keys(ra[i], rb[i]);
        assert(can_fill(ra[i], bin1.len() as int, offset_key(ra[i]) as int));
        assert(can_fill(rb[i], bin2.len() as int, offset_key(rb[i]) as int));
        lemma_filled_same_shape(ra[i], rb[i], bin1, bin2, offset_key(ra[i]) as int);
    }
}

} // verus!
