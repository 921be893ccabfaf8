//! What filling the gaps of a segment achieves. Where no two siblings
//! overlap, the blocks of the filled segment follow one another without a
//! gap, each at the offset that its header gives. Where the children also
//! lie inside the segment, the blocks together are the bytes of the
//! segment's file range.

use crate::block::{flat, flat_all, flat_upto, BlockView};
use crate::builder::{
    can_fill, can_fill_upto, cursor_before, filled, filled_upto, footprint, gap_before, gap_behind,
    lemma_can_fill_prefix, offset_key,
};
use crate::segment::SegmentView;
use vstd::prelude::*;

verus! {

/// What the first `n` blocks flatten to depends on those blocks only.
pub proof fn lemma_flat_upto_prefix(a: Seq<BlockView>, b: Seq<BlockView>, n: nat)
    requires
        n <= a.len(),
        n <= b.len(),
        forall|i: int| 0 <= i < n ==> a[i] == b[i],
    ensures
        flat_upto(a, n) == flat_upto(b, n),
    decreases n,
{
    if n > 0 {
        lemma_flat_upto_prefix(a, b, (n - 1) as nat);
    }
}

/// The blocks of two lists put together flatten to what the first list
/// flattens to, followed by what the blocks of the second flatten to.
pub proof fn lemma_flat_upto_concat(a: Seq<BlockView>, b: Seq<BlockView>, k: nat)
    requires
        k <= b.len(),
    ensures
        flat_upto(a + b, a.len() + k) == flat_all(a) + flat_upto(b, k),
    decreases k,
{
    if k == 0 {
        lemma_flat_upto_prefix(a + b, a, a.len());
        assert(flat_all(a) + flat_upto(b, 0) =~= flat_all(a));
    } else {
        lemma_flat_upto_concat(a, b, (k - 1) as nat);
        assert((a + b)[a.len() + k - 1] == b[k - 1]);
        assert(flat_upto(a + b, a.len() + k) =~= flat_all(a) + flat_upto(b, k));
    }
}

/// Two lists of blocks put together flatten to what the first flattens to,
/// followed by what the second flattens to.
pub proof fn lemma_flat_all_concat(a: Seq<BlockView>, b: Seq<BlockView>)
    ensures
        flat_all(a + b) == flat_all(a) + flat_all(b),
{
    lemma_flat_upto_concat(a, b, b.len());
}

/// Whether the block `b`, before its gaps are filled, is laid out inside
/// its own file range without overlap: in every segment, each child starts
/// at or behind the end of the child before it, and the last child ends at
/// or before the end of the segment.
pub open spec fn well_laid(b: BlockView) -> bool
    decreases b, 0nat,
{
    match b {
        BlockView::Segment(s) => well_laid_upto(s.blocks, s.blocks.len()) && cursor_before(
            s.blocks,
            s.blocks.len() as int,
        ) <= s.phdr.filesz,
        _ => true,
    }
}

/// Whether no two siblings in the block `b`, before its gaps are filled,
/// overlap: in every segment, each child starts at or behind the end of
/// the child before it, and what is inside a child that has a sibling
/// behind it does not run past the end of that child.
pub open spec fn spaced(b: BlockView) -> bool
    decreases b, 0nat,
{
    match b {
        BlockView::Segment(s) => spaced_upto(s.blocks, s.blocks.len()),
        _ => true,
    }
}

/// Whether no two of the first `n` of `children` overlap, nor two siblings
/// inside any of them.
pub open spec fn spaced_upto(children: Seq<BlockView>, n: nat) -> bool
    decreases children, n,
{
    if n == 0 {
        true
    } else if n > children.len() {
        false
    } else {
        &&& spaced_upto(children, (n - 1) as nat)
        &&& cursor_before(children, n - 1) <= offset_key(children[n - 1])
        &&& if n < children.len() {
            well_laid(children[n - 1])
        } else {
            spaced(children[n - 1])
        }
    }
}

/// Whether the first `n` of `children` are laid out without overlap, and
/// each of them is well laid out inside.
pub open spec fn well_laid_upto(children: Seq<BlockView>, n: nat) -> bool
    decreases children, n,
{
    if n == 0 {
        true
    } else if n > children.len() {
        false
    } else {
        &&& well_laid_upto(children, (n - 1) as nat)
        &&& cursor_before(children, n - 1) <= offset_key(children[n - 1])
        &&& well_laid(children[n - 1])
    }
}

/// Whether every block in `b` that has an offset sits at it: in every
/// segment, the bytes of the blocks in front of a child segment or section
/// are as many as the offset of that child says.
pub open spec fn offsets_match(b: BlockView) -> bool
    decreases b,
{
    match b {
        BlockView::Segment(s) => forall|j: int|
            0 <= j < s.blocks.len() ==> {
                &&& (s.blocks[j] is Segment || s.blocks[j] is Section) ==> flat_upto(
                    s.blocks,
                    j as nat,
                ).len() == offset_key(#[trigger] s.blocks[j])
                &&& offsets_match(s.blocks[j])
            },
        _ => true,
    }
}

/// Whether every block in `blocks` that has an offset sits at it, and so
/// does every block inside each of them.
pub open spec fn siblings_match(blocks: Seq<BlockView>) -> bool {
    forall|j: int|
        0 <= j < blocks.len() ==> {
            &&& (blocks[j] is Segment || blocks[j] is Section) ==> flat_upto(blocks, j as nat).len()
                == offset_key(#[trigger] blocks[j])
            &&& offsets_match(blocks[j])
        }
}

/// The offset of block `j` among its siblings `blocks`: the offset in its
/// header for a segment and for a section, and the number of bytes of the
/// blocks in front of it for raw data and padding, which have no header.
pub open spec fn sibling_offset(blocks: Seq<BlockView>, j: int) -> int {
    if blocks[j] is Segment || blocks[j] is Section {
        offset_key(blocks[j]) as int
    } else {
        flat_upto(blocks, j as nat).len() as int
    }
}

/// Among siblings that sit at their offsets, the first is at offset 0 and
/// each ends where the next begins: its offset and its bytes add up to the
/// offset of the next.
pub proof fn lemma_matching_siblings_abut(blocks: Seq<BlockView>, j: int)
    requires
        siblings_match(blocks),
        0 <= j < blocks.len(),
    ensures
        j == 0 ==> sibling_offset(blocks, j) == 0,
        j + 1 < blocks.len() ==> sibling_offset(blocks, j) + flat(blocks[j]).len()
            == sibling_offset(blocks, j + 1),
{
    assert(sibling_offset(blocks, j) == flat_upto(blocks, j as nat).len());
    if j + 1 < blocks.len() {
        assert(sibling_offset(blocks, j + 1) == flat_upto(blocks, (j + 1) as nat).len());
    }
}

/// Among siblings that sit at their offsets, the offsets never fall from
/// one block to a later one.
pub proof fn lemma_matching_siblings_ascend(blocks: Seq<BlockView>, i: int, j: int)
    requires
        siblings_match(blocks),
        0 <= i <= j < blocks.len(),
        blocks[i] is Segment || blocks[i] is Section,
        blocks[j] is Segment || blocks[j] is Section,
    ensures
        offset_key(blocks[i]) <= offset_key(blocks[j]),
{
    crate::block::lemma_flat_upto_monotone(blocks, i as nat, j as nat);
}

/// The blocks of a filled segment are its filled children with the gap
/// behind them, and the gap holds as many bytes as lie between the end of
/// the last child and the end of the segment.
pub proof fn lemma_gap_behind(s: SegmentView, bin: Seq<u8>, origin: int)
    requires
        0 <= origin,
        can_fill(BlockView::Segment(s), bin.len() as int, origin),
    ensures
        filled(BlockView::Segment(s), bin, origin)->Segment_0.blocks == filled_upto(
            s.blocks,
            bin,
            origin,
            s.blocks.len(),
        ) + gap_behind(s, bin, origin),
        flat_all(gap_behind(s, bin, origin)).len() == if cursor_before(
            s.blocks,
            s.blocks.len() as int,
        ) < s.phdr.filesz {
            s.phdr.filesz - cursor_before(s.blocks, s.blocks.len() as int)
        } else {
            0
        },
        is_file_range(
            flat_all(gap_behind(s, bin, origin)),
            bin,
            origin + cursor_before(s.blocks, s.blocks.len() as int),
        ),
        forall|j: int|
            0 <= j < gap_behind(s, bin, origin).len() ==> #[trigger] gap_behind(
                s,
                bin,
                origin,
            )[j] is RawDat,
{
    let gap = gap_behind(s, bin, origin);
    if cursor_before(s.blocks, s.blocks.len() as int) < s.phdr.filesz {
        assert(flat_upto(gap, 1) =~= flat(gap[0])) by {
            assert(flat_upto(gap, 0) =~= Seq::<u8>::empty());
        }
    }
}

/// Among the blocks of a list with raw data put behind it, every block
/// with an offset sits at it where that holds of the list.
pub proof fn lemma_siblings_match_with_tail(front: Seq<BlockView>, tail: Seq<BlockView>)
    requires
        siblings_match(front),
        forall|j: int| 0 <= j < tail.len() ==> #[trigger] tail[j] is RawDat,
    ensures
        siblings_match(front + tail),
{
    let all = front + tail;
    assert forall|j: int| 0 <= j < all.len() implies {
        &&& (all[j] is Segment || all[j] is Section) ==> flat_upto(all, j as nat).len()
            == offset_key(#[trigger] all[j])
        &&& offsets_match(all[j])
    } by {
        if j < front.len() {
            assert(all[j] == front[j]);
            lemma_flat_upto_prefix(all, front, j as nat);
        } else {
            assert(all[j] == tail[j - front.len()]);
        }
    }
}

/// Filling a well laid-out block gives a block in which every child with an
/// offset sits at it, and whose bytes are as many as the block takes of the
/// file.
pub proof fn lemma_fill_closes_gaps(b: BlockView, bin: Seq<u8>, origin: int)
    requires
        0 <= origin,
        well_laid(b),
        can_fill(b, bin.len() as int, origin),
    ensures
        offsets_match(filled(b, bin, origin)),
        flat(filled(b, bin, origin)).len() == footprint(b),
    decreases b, 0nat,
{
    match b {
        BlockView::Segment(s) => {
            let front = filled_upto(s.blocks, bin, origin, s.blocks.len());
            let tail = gap_behind(s, bin, origin);
            lemma_fill_children_close_gaps(s.blocks, bin, origin, s.blocks.len());
            lemma_gap_behind(s, bin, origin);
            lemma_siblings_match_with_tail(front, tail);
            lemma_flat_all_concat(front, tail);
            assert(offsets_match(
                BlockView::Segment(SegmentView { phdr: s.phdr, blocks: front + tail }),
            ));
        },
        _ => {},
    }
}

/// Filling a block in which no two siblings overlap gives a block in which
/// every child with an offset sits at it: with each parent, the bytes of
/// the blocks in front of a child are as many as the child's offset says.
pub proof fn lemma_fill_sets_siblings_apart(b: BlockView, bin: Seq<u8>, origin: int)
    requires
        0 <= origin,
        spaced(b),
        can_fill(b, bin.len() as int, origin),
    ensures
        offsets_match(filled(b, bin, origin)),
    decreases b, 0nat,
{
    match b {
        BlockView::Segment(s) => {
            let n = s.blocks.len();
            let front = filled_upto(s.blocks, bin, origin, n);
            let tail = gap_behind(s, bin, origin);
            if n > 0 {
                let children = s.blocks;
                let c = children[n - 1];
                lemma_spaced_prefix_is_well_laid(children, (n - 1) as nat, n);
                lemma_can_fill_prefix(children, bin.len() as int, origin, (n - 1) as nat, n);
                lemma_fill_children_close_gaps(children, bin, origin, (n - 1) as nat);
                lemma_fill_sets_siblings_apart(c, bin, origin + offset_key(c));
                let prev = filled_upto(children, bin, origin, (n - 1) as nat);
                let gap = gap_before(children, bin, origin, n - 1);
                let fc = filled(c, bin, origin + offset_key(c));
                assert(front == prev + gap + seq![fc]);
                lemma_flat_all_concat(prev, gap);
                assert(flat_all(gap).len() == offset_key(c) - cursor_before(children, n - 1)) by {
                    if cursor_before(children, n - 1) < offset_key(c) {
                        assert(flat_upto(gap, 1) =~= flat(gap[0])) by {
                            assert(flat_upto(gap, 0) =~= Seq::<u8>::empty());
                        }
                    }
                }
                assert forall|j: int| 0 <= j < front.len() implies {
                    &&& (front[j] is Segment || front[j] is Section) ==> flat_upto(
                        front,
                        j as nat,
                    ).len() == offset_key(#[trigger] front[j])
                    &&& offsets_match(front[j])
                } by {
                    if j < prev.len() {
                        assert(front[j] == prev[j]);
                        lemma_flat_upto_prefix(front, prev, j as nat);
                    } else if j < prev.len() + gap.len() {
                        assert(front[j] == gap[j - prev.len()]);
                    } else {
                        assert(front[j] == fc);
                        lemma_flat_upto_prefix(front, prev + gap, j as nat);
                        assert(offset_key(fc) == offset_key(c));
                    }
                }
            }
            assert(siblings_match(front));
            assert forall|j: int| 0 <= j < tail.len() implies #[trigger] tail[j] is RawDat by {}
            lemma_siblings_match_with_tail(front, tail);
            assert(offsets_match(
                BlockView::Segment(SegmentView { phdr: s.phdr, blocks: front + tail }),
            ));
        },
        _ => {},
    }
}

/// Of children no two of which overlap, those that have a sibling behind
/// them are well laid out.
pub proof fn lemma_spaced_prefix_is_well_laid(children: Seq<BlockView>, k: nat, n: nat)
    requires
        k < n <= children.len(),
        spaced_upto(children, n),
    ensures
        well_laid_upto(children, k),
    decreases n,
{
    if k + 1 < n {
        lemma_spaced_prefix_is_well_laid(children, k, (n - 1) as nat);
    } else {
        // k + 1 == n
        lemma_spaced_below_end_is_well_laid(children, k);
    }
}

/// Children no two of which overlap, taken up to one that is not the last,
/// are well laid out.
pub proof fn lemma_spaced_below_end_is_well_laid(children: Seq<BlockView>, k: nat)
    requires
        k < children.len(),
        spaced_upto(children, k),
    ensures
        well_laid_upto(children, k),
    decreases k,
{
    if k > 0 {
        lemma_spaced_below_end_is_well_laid(children, (k - 1) as nat);
    }
}

/// Filling the first `n` children of a segment gives blocks among which
/// every one with an offset sits at it, and whose bytes reach to the end of
/// child `n - 1`.
pub proof fn lemma_fill_children_close_gaps(
    children: Seq<BlockView>,
    bin: Seq<u8>,
    origin: int,
    n: nat,
)
    requires
        0 <= origin,
        n <= children.len(),
        well_laid_upto(children, n),
        can_fill_upto(children, bin.len() as int, origin, n),
    ensures
        siblings_match(filled_upto(children, bin, origin, n)),
        flat_all(filled_upto(children, bin, origin, n)).len() == cursor_before(children, n as int),
    decreases children, n,
{
    if n == 0 {
    } else {
        let prev = filled_upto(children, bin, origin, (n - 1) as nat);
        let c = children[n - 1];
        let gap = gap_before(children, bin, origin, n - 1);
        let fc = filled(c, bin, origin + offset_key(c));
        let cur = filled_upto(children, bin, origin, n);
        lemma_fill_children_close_gaps(children, bin, origin, (n - 1) as nat);
        lemma_fill_closes_gaps(c, bin, origin + offset_key(c));
        assert(cur == prev + gap + seq![fc]);
        lemma_flat_all_concat(prev, gap);
        lemma_flat_all_concat(prev + gap, seq![fc]);
        assert(flat_all(gap).len() == offset_key(c) - cursor_before(children, n - 1)) by {
            if cursor_before(children, n - 1) < offset_key(c) {
                assert(flat_upto(gap, 1) =~= flat(gap[0])) by {
                    assert(flat_upto(gap, 0) =~= Seq::<u8>::empty());
                }
            }
        }
        assert(flat_all(seq![fc]) =~= flat(fc)) by {
            assert(flat_upto(seq![fc], 0) =~= Seq::<u8>::empty());
        }
        assert(flat(fc).len() == footprint(c));
        assert forall|j: int| 0 <= j < cur.len() implies {
            &&& (cur[j] is Segment || cur[j] is Section) ==> flat_upto(cur, j as nat).len()
                == offset_key(#[trigger] cur[j])
            &&& offsets_match(cur[j])
        } by {
            if j < prev.len() {
                assert(cur[j] == prev[j]);
                lemma_flat_upto_prefix(cur, prev, j as nat);
            } else if j < prev.len() + gap.len() {
                assert(cur[j] == gap[j - prev.len()]);
            } else {
                assert(cur[j] == fc);
                lemma_flat_upto_prefix(cur, prev + gap, j as nat);
                assert(fc is Segment <==> c is Segment);
                assert(offset_key(fc) == offset_key(c));
            }
        }
    }
}

/// In a list of children laid out without overlap, each child ends at or
/// before the end of every child behind it.
pub proof fn lemma_children_end_in_order(children: Seq<BlockView>, k: nat, n: nat)
    requires
        k <= n <= children.len(),
        well_laid_upto(children, n),
    ensures
        well_laid_upto(children, k),
        0 <= cursor_before(children, k as int) <= cursor_before(children, n as int),
    decreases n,
{
    if k < n {
        lemma_children_end_in_order(children, k, (n - 1) as nat);
        assert(footprint(children[n - 1]) >= 0);
    }
}

/// A well laid-out block whose gaps can be filled from some file has them
/// filled from any file that reaches to its end: filling takes no byte
/// behind the end of the block.
pub proof fn lemma_fill_stays_inside(b: BlockView, len1: int, len2: int, origin: int)
    requires
        0 <= origin,
        well_laid(b),
        can_fill(b, len1, origin),
        origin + footprint(b) <= len2,
    ensures
        can_fill(b, len2, origin),
    decreases b, 0nat,
{
    match b {
        BlockView::Segment(s) => {
            lemma_fill_children_stay_inside(
                s.blocks,
                len1,
                len2,
                origin,
                s.blocks.len(),
                s.blocks.len(),
            );
        },
        _ => {},
    }
}

/// The first `n` of `m` children laid out without overlap have their gaps
/// filled from any file that reaches to the end of child `m - 1`.
pub proof fn lemma_fill_children_stay_inside(
    children: Seq<BlockView>,
    len1: int,
    len2: int,
    origin: int,
    n: nat,
    m: nat,
)
    requires
        0 <= origin,
        n <= m <= children.len(),
        well_laid_upto(children, m),
        can_fill_upto(children, len1, origin, m),
        origin + cursor_before(children, m as int) <= len2,
    ensures
        can_fill_upto(children, len2, origin, n),
    decreases children, n,
{
    if n > 0 {
        lemma_fill_children_stay_inside(children, len1, len2, origin, (n - 1) as nat, m);
        lemma_can_fill_prefix(children, len1, origin, n, m);
        lemma_children_end_in_order(children, n, m);
        let c = children[n - 1];
        assert(well_laid(c));
        assert(offset_key(c) + footprint(c) == cursor_before(children, n as int));
        assert(footprint(c) >= 0);
        lemma_fill_stays_inside(c, len1, len2, origin + offset_key(c));
    }
}

/// Whether every section in the block `b`, which starts at file position
/// `origin`, holds the bytes that the file has at the place of the section.
pub open spec fn faithful(b: BlockView, bin: Seq<u8>, origin: int) -> bool
    decreases b,
{
    match b {
        BlockView::Segment(s) => forall|k: int|
            0 <= k < s.blocks.len() ==> faithful(
                #[trigger] s.blocks[k],
                bin,
                origin + offset_key(s.blocks[k]),
            ),
        BlockView::Section(s) => s.content.len() == 0 || (origin + s.content.len() <= bin.len()
            && s.content == bin.subrange(origin, origin + s.content.len())),
        _ => true,
    }
}

/// Whether `bytes` are the bytes of the file `bin` from position `from` on.
/// Of no bytes this holds at any position.
pub open spec fn is_file_range(bytes: Seq<u8>, bin: Seq<u8>, from: int) -> bool {
    bytes.len() == 0 || (0 <= from && from + bytes.len() <= bin.len() && bytes == bin.subrange(
        from,
        from + bytes.len(),
    ))
}

/// Two stretches of a file that follow one another are, put together, one
/// stretch of the file.
pub proof fn lemma_file_ranges_join(a: Seq<u8>, b: Seq<u8>, bin: Seq<u8>, from: int)
    requires
        is_file_range(a, bin, from),
        is_file_range(b, bin, from + a.len()),
    ensures
        is_file_range(a + b, bin, from),
{
    if a.len() == 0 {
        assert(a + b =~= b);
    } else if b.len() == 0 {
        assert(a + b =~= a);
    } else {
        assert(a + b =~= bin.subrange(from, from + a.len() + b.len()));
    }
}

/// A well laid-out block whose sections hold the bytes of the file is, once
/// its gaps are filled, the bytes of its file range.
pub proof fn lemma_fill_covers(b: BlockView, bin: Seq<u8>, origin: int)
    requires
        0 <= origin,
        well_laid(b),
        can_fill(b, bin.len() as int, origin),
        faithful(b, bin, origin),
        b is Segment || b is Section,
    ensures
        flat(filled(b, bin, origin)).len() == footprint(b),
        is_file_range(flat(filled(b, bin, origin)), bin, origin),
    decreases b, 0nat,
{
    lemma_fill_closes_gaps(b, bin, origin);
    match b {
        BlockView::Segment(s) => {
            let front = filled_upto(s.blocks, bin, origin, s.blocks.len());
            let tail = gap_behind(s, bin, origin);
            lemma_fill_children_cover(s.blocks, bin, origin, s.blocks.len());
            lemma_gap_behind(s, bin, origin);
            lemma_flat_all_concat(front, tail);
            lemma_file_ranges_join(flat_all(front), flat_all(tail), bin, origin);
        },
        _ => {},
    }
}

/// The first `n` children of a well laid-out segment are, once the gaps in
/// front of and inside them are filled, the bytes of the file from the
/// start of the segment to the end of child `n - 1`.
pub proof fn lemma_fill_children_cover(
    children: Seq<BlockView>,
    bin: Seq<u8>,
    origin: int,
    n: nat,
)
    requires
        0 <= origin,
        n <= children.len(),
        well_laid_upto(children, n),
        can_fill_upto(children, bin.len() as int, origin, n),
        forall|k: int|
            0 <= k < n ==> faithful(#[trigger] children[k], bin, origin + offset_key(children[k])),
    ensures
        flat_all(filled_upto(children, bin, origin, n)).len() == cursor_before(children, n as int),
        is_file_range(flat_all(filled_upto(children, bin, origin, n)), bin, origin),
    decreases children, n,
{
    lemma_fill_children_close_gaps(children, bin, origin, n);
    if n == 0 {
    } else {
        let prev = filled_upto(children, bin, origin, (n - 1) as nat);
        let c = children[n - 1];
        let gap = gap_before(children, bin, origin, n - 1);
        let fc = filled(c, bin, origin + offset_key(c));
        let cur = filled_upto(children, bin, origin, n);
        lemma_fill_children_cover(children, bin, origin, (n - 1) as nat);
        assert(faithful(c, bin, origin + offset_key(c)));
        lemma_fill_covers(c, bin, origin + offset_key(c));
        assert(cur == prev + gap + seq![fc]);
        lemma_flat_all_concat(prev, gap);
        lemma_flat_all_concat(prev + gap, seq![fc]);
        assert(flat_all(seq![fc]) =~= flat(fc)) by {
            assert(flat_upto(seq![fc], 0) =~= Seq::<u8>::empty());
        }
        let e = cursor_before(children, n - 1);
        assert(flat_all(prev).len() == e);
        assert(flat_all(gap).len() == offset_key(c) - e && is_file_range(
            flat_all(gap),
            bin,
            origin + e,
        )) by {
            if e < offset_key(c) {
                assert(flat_upto(gap, 1) =~= flat(gap[0])) by {
                    assert(flat_upto(gap, 0) =~= Seq::<u8>::empty());
                }
            }
        }
        lemma_file_ranges_join(flat_all(prev), flat_all(gap), bin, origin);
        lemma_file_ranges_join(flat_all(prev) + flat_all(gap), flat(fc), bin, origin);
    }
}

} // verus!
