//! The tree builder: from the program headers, the section headers and the
//! bytes of a file to the tree of blocks.
//!
//! The work is done in four steps. Each program header becomes a root
//! segment. Each section goes into the narrowest root segment that holds
//! its start. Each root segment whose start lies in another root moves into
//! that root. Last, the stretches of a segment that no child covers are
//! filled with the bytes of the file.

use crate::block::{blocks_view, group_block_views, Block, BlockView};
use crate::bytes::read_u16;
use crate::header::hdr_shstrndx;
use crate::phdr::{parse_program_header, phdr_table_ok, spec_program_headers, ProgramHeader};
use crate::section::{Section, SectionView};
use crate::segment::{phdr_contains, Segment, SegmentView};
use crate::shdr::{
    names_ok, parse_section_header, shdr_table_ok, shdrs_view, spec_section_headers, SectionHeader,
    SectionHeaderView, Shdr_type,
};
use crate::ParsingError;
use vstd::prelude::*;

verus! {

broadcast use group_block_views;

/// A segment with the header `phdr` and nothing inside it.
pub open spec fn empty_segment(phdr: ProgramHeader) -> BlockView {
    BlockView::Segment(SegmentView { phdr: phdr, blocks: Seq::empty() })
}

/// One empty root segment for each program header, in table order.
pub open spec fn seed_segments(phdrs: Seq<ProgramHeader>) -> Seq<BlockView> {
    Seq::new(phdrs.len(), |i: int| empty_segment(phdrs[i]))
}

/// Makes one empty root segment for each program header, in table order.
pub fn init_segments(program_hdrs: &Vec<ProgramHeader>) -> (r_blocks: Vec<Block>)
    ensures
        blocks_view(r_blocks@) == seed_segments(program_hdrs@),
{
    let mut r_blocks: Vec<Block> = Vec::new();
    let mut i: usize = 0;
    while i < program_hdrs.len()
        invariant
            i <= program_hdrs.len(),
            r_blocks@.len() == i,
            forall|k: int| 0 <= k < i ==> (#[trigger] r_blocks@[k])@ == empty_segment(program_hdrs@[k]),
        decreases program_hdrs.len() - i,
    {
        let seg = Segment { phdr: program_hdrs[i], blocks: Vec::new() };
        assert(blocks_view(seg.blocks@) =~= Seq::empty());
        r_blocks.push(Block::Segment(seg));
        i += 1;
    }
    assert(blocks_view(r_blocks@) =~= seed_segments(program_hdrs@));
    r_blocks
}

/// Whether the segment `seg` holds the start of the section `s`.
///
/// A section that takes no room in the file may start at the end of the
/// segment but not at its start; any other section may start at the start
/// of the segment but not at its end.
pub open spec fn section_fits(seg: ProgramHeader, s: SectionHeaderView) -> bool {
    if s.is_nobits() {
        seg.offset < s.offset <= seg.offset + seg.filesz
    } else {
        seg.offset <= s.offset < seg.offset + seg.filesz
    }
}

/// A segment with a file size holds the start of a section that takes no
/// room in the file where the section starts at the end of the segment,
/// and does not where the section starts at the start of the segment. A
/// section that takes room is held the other way round.
pub proof fn lemma_fit_at_the_edges(seg: ProgramHeader, s: SectionHeaderView)
    requires
        seg.filesz > 0,
    ensures
        s.offset == seg.offset ==> (section_fits(seg, s) <==> !s.is_nobits()),
        s.offset == seg.offset + seg.filesz ==> (section_fits(seg, s) <==> s.is_nobits()),
{
}

/// Whether segment `i` is the narrowest fit of the section `s`: it holds
/// the start of `s`, no segment that does is smaller in the file, and of
/// those of its own size it comes first.
pub open spec fn is_narrowest_fit(phdrs: Seq<ProgramHeader>, s: SectionHeaderView, i: int) -> bool {
    &&& 0 <= i < phdrs.len()
    &&& section_fits(phdrs[i], s)
    &&& forall|j: int|
        0 <= j < phdrs.len() && #[trigger] section_fits(phdrs[j], s) ==> phdrs[i].filesz
            < phdrs[j].filesz || (phdrs[i].filesz == phdrs[j].filesz && i <= j)
}

/// The narrowest fit of the section `s`, if any segment holds its start.
pub open spec fn narrowest_fit(phdrs: Seq<ProgramHeader>, s: SectionHeaderView) -> Option<int> {
    if exists|i: int| is_narrowest_fit(phdrs, s, i) {
        Some(choose|i: int| is_narrowest_fit(phdrs, s, i))
    } else {
        None
    }
}

/// A section has at most one narrowest fit.
pub proof fn lemma_narrowest_fit_unique(
    phdrs: Seq<ProgramHeader>,
    s: SectionHeaderView,
    i: int,
    j: int,
)
    requires
        is_narrowest_fit(phdrs, s, i),
        is_narrowest_fit(phdrs, s, j),
    ensures
        i == j,
{
}

/// Finds the narrowest fit of the section `shdr` among the segments that
/// `program_hdrs` describe.
pub fn find_narrowest(program_hdrs: &Vec<ProgramHeader>, shdr: &SectionHeader) -> (best: Option<
    usize,
>)
    ensures
        match best {
            Some(i) => narrowest_fit(program_hdrs@, shdr@) == Some(i as int),
            None => narrowest_fit(program_hdrs@, shdr@) is None,
        },
        best matches Some(i) ==> is_narrowest_fit(program_hdrs@, shdr@, i as int),
        best is None ==> forall|j: int|
            0 <= j < program_hdrs@.len() ==> !section_fits(program_hdrs@[j], shdr@),
{
    let mut best: Option<usize> = None;
    let mut best_width: u64 = 0;
    let nobits = shdr.sh_type == Shdr_type::NOBITS;
    let s_start = shdr.offset;
    let mut idx: usize = 0;
    while idx < program_hdrs.len()
        invariant
            idx <= program_hdrs.len(),
            nobits == shdr@.is_nobits(),
            s_start == shdr@.offset,
            best is None ==> forall|j: int|
                0 <= j < idx ==> !section_fits(program_hdrs@[j], shdr@),
            best matches Some(b) ==> {
                &&& b < idx
                &&& best_width == program_hdrs@[b as int].filesz
                &&& section_fits(program_hdrs@[b as int], shdr@)
                &&& forall|j: int|
                    0 <= j < idx && #[trigger] section_fits(program_hdrs@[j], shdr@)
                        ==> program_hdrs@[b as int].filesz < program_hdrs@[j].filesz || (
                    program_hdrs@[b as int].filesz == program_hdrs@[j].filesz && b <= j)
            },
        decreases program_hdrs.len() - idx,
    {
        let c_start = program_hdrs[idx].offset;
        let width = program_hdrs[idx].filesz;
        let fits = if nobits {
            s_start > c_start && s_start - c_start <= width
        } else {
            s_start >= c_start && s_start - c_start < width
        };
        if fits {
            match best {
                None => {
                    best = Some(idx);
                    best_width = width;
                },
                Some(_) => {
                    if width < best_width {
                        best = Some(idx);
                        best_width = width;
                    }
                },
            }
        }
        idx += 1;
    }
    proof {
        match best {
            Some(b) => {
                assert(is_narrowest_fit(program_hdrs@, shdr@, b as int));
                let c = choose|i: int| is_narrowest_fit(program_hdrs@, shdr@, i);
                lemma_narrowest_fit_unique(program_hdrs@, shdr@, b as int, c);
            },
            None => {
                assert forall|i: int| !is_narrowest_fit(program_hdrs@, shdr@, i) by {}
            },
        }
    }
    best
}

/// The bytes of the file that the section `s` covers: none for a section
/// that takes no room in the file.
pub open spec fn section_content(s: SectionHeaderView, bin: Seq<u8>) -> Seq<u8> {
    if s.is_nobits() {
        Seq::empty()
    } else {
        bin.subrange(s.offset as int, s.offset + s.size)
    }
}

/// The block that stands for the section `s` inside the segment `seg`: the
/// header of `s` with its offset counted from the start of `seg`, and the
/// bytes that `s` covers.
pub open spec fn section_block(seg: ProgramHeader, s: SectionHeaderView, bin: Seq<u8>) -> BlockView {
    BlockView::Section(
        SectionView {
            hdr: SectionHeaderView { offset: (s.offset - seg.offset) as u64, ..s },
            content: section_content(s, bin),
        },
    )
}

/// The blocks of those of the first `n` sections whose narrowest fit is
/// segment `i`, in table order.
pub open spec fn sections_of(
    phdrs: Seq<ProgramHeader>,
    shdrs: Seq<SectionHeaderView>,
    bin: Seq<u8>,
    i: int,
    n: nat,
) -> Seq<BlockView>
    decreases n,
{
    if n == 0 || n > shdrs.len() {
        Seq::empty()
    } else {
        let rest = sections_of(phdrs, shdrs, bin, i, (n - 1) as nat);
        if narrowest_fit(phdrs, shdrs[n - 1]) == Some(i) {
            rest.push(section_block(phdrs[i], shdrs[n - 1], bin))
        } else {
            rest
        }
    }
}

/// Root segment `i` once each of the first `n` sections has gone to its
/// narrowest fit.
pub open spec fn root_with_sections(
    phdrs: Seq<ProgramHeader>,
    shdrs: Seq<SectionHeaderView>,
    bin: Seq<u8>,
    i: int,
    n: nat,
) -> BlockView {
    BlockView::Segment(
        SegmentView { phdr: phdrs[i], blocks: sections_of(phdrs, shdrs, bin, i, n) },
    )
}

/// The root segments once each section has gone to its narrowest fit. A
/// section whose start no segment holds is in none of them.
pub open spec fn assign_sections(
    phdrs: Seq<ProgramHeader>,
    shdrs: Seq<SectionHeaderView>,
    bin: Seq<u8>,
) -> Seq<BlockView> {
    Seq::new(phdrs.len(), |i: int| root_with_sections(phdrs, shdrs, bin, i, shdrs.len()))
}

/// Whether the bytes of the section `s` can be taken from a file of
/// `len` bytes: `s` goes into no segment, or takes no room in the file, or
/// ends in the file.
pub open spec fn section_in_file(phdrs: Seq<ProgramHeader>, s: SectionHeaderView, len: nat) -> bool {
    narrowest_fit(phdrs, s) is Some && !s.is_nobits() ==> s.offset + s.size <= len
}

/// Whether the bytes of each section can be taken from a file of `len` bytes.
pub open spec fn sections_in_file(
    phdrs: Seq<ProgramHeader>,
    shdrs: Seq<SectionHeaderView>,
    len: nat,
) -> bool {
    forall|k: int| 0 <= k < shdrs.len() ==> #[trigger] section_in_file(phdrs, shdrs[k], len)
}

/// A copy of the bytes of `bin` from `start` up to `end`.
fn copy_range(bin: &Vec<u8>, start: usize, end: usize) -> (r: Vec<u8>)
    requires
        start <= end <= bin@.len(),
    ensures
        r@ == bin@.subrange(start as int, end as int),
{
    vstd::slice::slice_to_vec(vstd::slice::slice_subrange(bin.as_slice(), start, end))
}

/// Appends `child` to the blocks of the segment at position `i`.
fn push_child(blocks: &mut Vec<Block>, i: usize, child: Block)
    requires
        i < old(blocks)@.len(),
        old(blocks)@[i as int] is Segment,
    ensures
        final(blocks)@.len() == old(blocks)@.len(),
        forall|k: int| 0 <= k < old(blocks)@.len() && k != i ==> final(blocks)@[k] == old(blocks)@[k],
        final(blocks)@[i as int]@ == BlockView::Segment(
            SegmentView {
                phdr: old(blocks)@[i as int]@->Segment_0.phdr,
                blocks: old(blocks)@[i as int]@->Segment_0.blocks.push(child@),
            },
        ),
{
    let mut b = blocks.remove(i);
    match b {
        Block::Segment(mut seg) => {
            seg.blocks.push(child);
            assert(blocks_view(seg.blocks@) =~= old(blocks)@[i as int]@->Segment_0.blocks.push(child@));
            blocks.insert(i, Block::Segment(seg));
        },
        other => {
            blocks.insert(i, other);
        },
    }
}

/// Puts each section into the narrowest segment that holds its start.
///
/// The result has one root segment for each program header, in table
/// order, and in each the blocks of its sections, in table order. Fails
/// when a section that goes into a segment and takes room in the file runs
/// past the end of `bin`.
pub fn find_sections_narrowfit(
    program_hdrs: &Vec<ProgramHeader>,
    section_hdrs: &Vec<SectionHeader>,
    bin: &Vec<u8>,
) -> (r: Result<Vec<Block>, ParsingError>)
    ensures
        match r {
            Ok(blocks) => sections_in_file(program_hdrs@, shdrs_view(section_hdrs@), bin@.len())
                && blocks_view(blocks@) == assign_sections(
                program_hdrs@,
                shdrs_view(section_hdrs@),
                bin@,
            ),
            Err(e) => !sections_in_file(program_hdrs@, shdrs_view(section_hdrs@), bin@.len()) && e
                == ParsingError::ParsingError,
        },
{
    let mut blocks = init_segments(program_hdrs);
    let ghost phdrs = program_hdrs@;
    let ghost shdrs = shdrs_view(section_hdrs@);
    let mut k: usize = 0;
    assert forall|i: int| 0 <= i < phdrs.len() implies (#[trigger] blocks@[i])@
        == root_with_sections(phdrs, shdrs, bin@, i, 0) by {
        assert(blocks_view(blocks@)[i] == blocks@[i]@);
    }
    while k < section_hdrs.len()
        invariant
            k <= section_hdrs.len(),
            phdrs == program_hdrs@,
            shdrs == shdrs_view(section_hdrs@),
            blocks@.len() == phdrs.len(),
            forall|i: int|
                0 <= i < phdrs.len() ==> (#[trigger] blocks@[i])@ == root_with_sections(
                    phdrs,
                    shdrs,
                    bin@,
                    i,
                    k as nat,
                ),
            forall|j: int| 0 <= j < k ==> #[trigger] section_in_file(phdrs, shdrs[j], bin@.len()),
        decreases section_hdrs.len() - k,
    {
        let shdr = &section_hdrs[k];
        assert(shdrs[k as int] == shdr@);
        match find_narrowest(program_hdrs, shdr) {
            None => {},
            Some(best_idx) => {
                let seg_start = program_hdrs[best_idx].offset;
                let new_shdr = shdr.with_offset(shdr.offset - seg_start);
                let content = if shdr.sh_type == Shdr_type::NOBITS {
                    Vec::new()
                } else {
                    let len = bin.len() as u64;
                    if shdr.offset > len || shdr.size > len - shdr.offset {
                        assert(!section_in_file(phdrs, shdrs[k as int], bin@.len()));
                        return Err(ParsingError::ParsingError);
                    }
                    copy_range(bin, shdr.offset as usize, (shdr.offset + shdr.size) as usize)
                };
                assert(content@ =~= section_content(shdr@, bin@));
                let sec = Section { hdr: new_shdr, content };
                push_child(&mut blocks, best_idx, Block::Section(sec));
            },
        }
        k += 1;
    }
    assert(blocks_view(blocks@) =~= assign_sections(phdrs, shdrs, bin@));
    Ok(blocks)
}

/// The offset by which a block is ordered among its siblings: that of its
/// header for a segment and for a section. Raw data and padding have no
/// header and count as 0; the builder orders blocks only while there are
/// none of those.
pub open spec fn offset_key(b: BlockView) -> u64 {
    match b {
        BlockView::Segment(s) => s.phdr.offset,
        BlockView::Section(s) => s.hdr.offset,
        _ => 0,
    }
}

/// `blocks` with `b` put in behind the last block that `b` does not have
/// to come before.
pub open spec fn insert_by_offset(blocks: Seq<BlockView>, b: BlockView) -> Seq<BlockView>
    decreases blocks.len(),
{
    if blocks.len() == 0 || offset_key(blocks.last()) <= offset_key(b) {
        blocks.push(b)
    } else {
        insert_by_offset(blocks.drop_last(), b).push(blocks.last())
    }
}

/// The first `n` blocks of `blocks` in ascending order of offset, those of
/// one offset in the order in which `blocks` has them.
pub open spec fn sorted_upto(blocks: Seq<BlockView>, n: nat) -> Seq<BlockView>
    decreases n,
{
    if n == 0 || n > blocks.len() {
        Seq::empty()
    } else {
        insert_by_offset(sorted_upto(blocks, (n - 1) as nat), blocks[n - 1])
    }
}

/// `blocks` in ascending order of offset, those of one offset in the order
/// in which `blocks` has them.
pub open spec fn sort_by_offset(blocks: Seq<BlockView>) -> Seq<BlockView> {
    sorted_upto(blocks, blocks.len())
}

/// Putting `b` in by offset puts it at the position behind which every
/// block has a greater offset and before which the nearest has none.
pub proof fn lemma_insert_position(blocks: Seq<BlockView>, b: BlockView, p: int)
    requires
        0 <= p <= blocks.len(),
        forall|k: int| p <= k < blocks.len() ==> offset_key(#[trigger] blocks[k]) > offset_key(b),
        p == 0 || offset_key(blocks[p - 1]) <= offset_key(b),
    ensures
        insert_by_offset(blocks, b) == blocks.insert(p, b),
    decreases blocks.len(),
{
    if p == blocks.len() {
        assert(blocks.push(b) =~= blocks.insert(p, b));
    } else {
        lemma_insert_position(blocks.drop_last(), b, p);
        assert(blocks.drop_last().insert(p, b).push(blocks.last()) =~= blocks.insert(p, b));
    }
}

/// Each block of a list with `b` put in by offset is `b` or a block of the
/// list.
pub proof fn lemma_insert_members(blocks: Seq<BlockView>, b: BlockView, j: int)
    requires
        0 <= j < insert_by_offset(blocks, b).len(),
    ensures
        insert_by_offset(blocks, b).len() == blocks.len() + 1,
        insert_by_offset(blocks, b)[j] == b || exists|k: int|
            0 <= k < blocks.len() && insert_by_offset(blocks, b)[j] == #[trigger] blocks[k],
    decreases blocks.len(),
{
    lemma_insert_len(blocks, b);
    if blocks.len() == 0 || offset_key(blocks.last()) <= offset_key(b) {
        if j < blocks.len() {
            assert(insert_by_offset(blocks, b)[j] == blocks[j]);
        }
    } else {
        let rest = blocks.drop_last();
        lemma_insert_len(rest, b);
        if j < rest.len() + 1 {
            lemma_insert_members(rest, b, j);
            if insert_by_offset(rest, b)[j] != b {
                let k = choose|k: int|
                    0 <= k < rest.len() && insert_by_offset(rest, b)[j] == #[trigger] rest[k];
                assert(blocks[k] == rest[k]);
            }
        } else {
            assert(insert_by_offset(blocks, b)[j] == blocks[blocks.len() - 1]);
        }
    }
}

/// Putting a block in by offset makes the list longer by one.
pub proof fn lemma_insert_len(blocks: Seq<BlockView>, b: BlockView)
    ensures
        insert_by_offset(blocks, b).len() == blocks.len() + 1,
    decreases blocks.len(),
{
    if blocks.len() == 0 || offset_key(blocks.last()) <= offset_key(b) {
    } else {
        lemma_insert_len(blocks.drop_last(), b);
    }
}

/// Each of the first `n` blocks in order of offset is one of those blocks,
/// and they are as many.
pub proof fn lemma_sorted_members(blocks: Seq<BlockView>, n: nat, j: int) -> (k: int)
    requires
        n <= blocks.len(),
        0 <= j < sorted_upto(blocks, n).len(),
    ensures
        0 <= k < n,
        sorted_upto(blocks, n)[j] == blocks[k],
    decreases n,
{
    lemma_sorted_len(blocks, n);
    let prev = sorted_upto(blocks, (n - 1) as nat);
    lemma_sorted_len(blocks, (n - 1) as nat);
    lemma_insert_members(prev, blocks[n - 1], j);
    if sorted_upto(blocks, n)[j] == blocks[n - 1] {
        n - 1
    } else {
        let p = choose|p: int| 0 <= p < prev.len() && sorted_upto(blocks, n)[j] == #[trigger] prev[p];
        lemma_sorted_members(blocks, (n - 1) as nat, p)
    }
}

/// The first `n` blocks in order of offset are `n` blocks.
pub proof fn lemma_sorted_len(blocks: Seq<BlockView>, n: nat)
    requires
        n <= blocks.len(),
    ensures
        sorted_upto(blocks, n).len() == n,
    decreases n,
{
    if n > 0 {
        lemma_sorted_len(blocks, (n - 1) as nat);
        lemma_insert_len(sorted_upto(blocks, (n - 1) as nat), blocks[n - 1]);
    }
}

/// A list with a block put in by offset holds the blocks of the list and
/// that block, each as often as before.
pub proof fn lemma_insert_keeps_blocks(blocks: Seq<BlockView>, b: BlockView)
    ensures
        insert_by_offset(blocks, b).to_multiset() == blocks.to_multiset().insert(b),
    decreases blocks.len(),
{
    if blocks.len() == 0 || offset_key(blocks.last()) <= offset_key(b) {
        vstd::seq_lib::to_multiset_build(blocks, b);
    } else {
        let rest = blocks.drop_last();
        let last = blocks.last();
        lemma_insert_keeps_blocks(rest, b);
        vstd::seq_lib::to_multiset_build(insert_by_offset(rest, b), last);
        vstd::seq_lib::to_multiset_build(rest, last);
        assert(rest.push(last) =~= blocks);
        assert(rest.to_multiset().insert(b).insert(last) =~= rest.to_multiset().insert(
            last,
        ).insert(b));
    }
}

/// The first `n` blocks in order of offset are the first `n` blocks, each
/// as often as before.
pub proof fn lemma_sorted_keeps_blocks(blocks: Seq<BlockView>, n: nat)
    requires
        n <= blocks.len(),
    ensures
        sorted_upto(blocks, n).to_multiset() == blocks.take(n as int).to_multiset(),
    decreases n,
{
    if n == 0 {
        assert(blocks.take(0) =~= Seq::<BlockView>::empty());
    } else {
        lemma_sorted_keeps_blocks(blocks, (n - 1) as nat);
        lemma_insert_keeps_blocks(sorted_upto(blocks, (n - 1) as nat), blocks[n - 1]);
        vstd::seq_lib::to_multiset_build(blocks.take(n - 1), blocks[n - 1]);
        assert(blocks.take(n - 1).push(blocks[n - 1]) =~= blocks.take(n as int));
    }
}

/// Whether the offsets of `blocks` never fall from one block to a later one.
pub open spec fn ascending(blocks: Seq<BlockView>) -> bool {
    forall|i: int, j: int|
        0 <= i <= j < blocks.len() ==> offset_key(#[trigger] blocks[i]) <= offset_key(
            #[trigger] blocks[j],
        )
}

/// Putting a block by offset into a list in ascending order leaves the
/// list in ascending order.
pub proof fn lemma_insert_ascends(blocks: Seq<BlockView>, b: BlockView)
    requires
        ascending(blocks),
    ensures
        ascending(insert_by_offset(blocks, b)),
    decreases blocks.len(),
{
    lemma_insert_len(blocks, b);
    let r = insert_by_offset(blocks, b);
    if blocks.len() == 0 || offset_key(blocks.last()) <= offset_key(b) {
        assert forall|i: int, j: int| 0 <= i <= j < r.len() implies offset_key(#[trigger] r[i])
            <= offset_key(#[trigger] r[j]) by {
            if j < blocks.len() {
                assert(r[i] == blocks[i] && r[j] == blocks[j]);
            } else if i < blocks.len() {
                assert(r[i] == blocks[i]);
                assert(offset_key(blocks[i]) <= offset_key(blocks[blocks.len() - 1]));
            }
        }
    } else {
        let rest = blocks.drop_last();
        assert forall|i: int, j: int| 0 <= i <= j < rest.len() implies offset_key(
            #[trigger] rest[i],
        ) <= offset_key(#[trigger] rest[j]) by {
            assert(rest[i] == blocks[i] && rest[j] == blocks[j]);
        }
        lemma_insert_ascends(rest, b);
        lemma_insert_len(rest, b);
        let inner = insert_by_offset(rest, b);
        assert forall|i: int, j: int| 0 <= i <= j < r.len() implies offset_key(#[trigger] r[i])
            <= offset_key(#[trigger] r[j]) by {
            if j < inner.len() {
                assert(r[i] == inner[i] && r[j] == inner[j]);
            } else if i < inner.len() {
                lemma_insert_members(rest, b, i);
                if inner[i] != b {
                    let k = choose|k: int| 0 <= k < rest.len() && inner[i] == #[trigger] rest[k];
                    assert(rest[k] == blocks[k]);
                    assert(offset_key(blocks[k]) <= offset_key(blocks[blocks.len() - 1]));
                }
            }
        }
    }
}

/// The first `n` blocks in order of offset are in ascending order.
pub proof fn lemma_sorted_ascends(blocks: Seq<BlockView>, n: nat)
    requires
        n <= blocks.len(),
    ensures
        ascending(sorted_upto(blocks, n)),
    decreases n,
{
    if n > 0 {
        lemma_sorted_ascends(blocks, (n - 1) as nat);
        lemma_insert_ascends(sorted_upto(blocks, (n - 1) as nat), blocks[n - 1]);
    }
}

/// The offset by which `b` is ordered among its siblings.
fn offset_of(b: &Block) -> (r: u64)
    ensures
        r == offset_key(b@),
{
    match b {
        Block::Segment(s) => s.phdr.offset,
        Block::Section(s) => s.hdr.offset,
        _ => 0,
    }
}

/// Puts `blocks` in ascending order of offset, leaving blocks of one offset
/// in the order they were in.
pub fn sort_blocks(blocks: &mut Vec<Block>)
    ensures
        blocks_view(final(blocks)@) == sort_by_offset(blocks_view(old(blocks)@)),
        ascending(blocks_view(final(blocks)@)),
        blocks_view(final(blocks)@).to_multiset() == blocks_view(old(blocks)@).to_multiset(),
        final(blocks)@.len() == old(blocks)@.len(),
{
    let ghost orig = blocks_view(blocks@);
    proof {
        lemma_sorted_ascends(orig, orig.len());
        lemma_sorted_keeps_blocks(orig, orig.len());
        assert(orig.take(orig.len() as int) =~= orig);
    }
    let n = blocks.len();
    let mut i: usize = 0;
    while i < n
        invariant
            i <= n,
            n == blocks@.len(),
            orig.len() == n,
            blocks_view(blocks@).subrange(0, i as int) == sorted_upto(orig, i as nat),
            blocks_view(blocks@).subrange(i as int, n as int) == orig.subrange(i as int, n as int),
        decreases n - i,
    {
        let ghost before = blocks_view(blocks@);
        let x = blocks.remove(i);
        assert(x@ == orig[i as int]) by {
            assert(before.subrange(i as int, n as int)[0] == before[i as int]);
        }
        let key = offset_of(&x);
        let mut p: usize = i;
        while p > 0 && offset_of(&blocks[p - 1]) > key
            invariant
                p <= i,
                i < n,
                blocks@.len() == n - 1,
                key == offset_key(x@),
                forall|k: int| p <= k < i ==> offset_key(#[trigger] blocks@[k]@) > key,
            decreases p,
        {
            p -= 1;
        }
        let ghost prefix = sorted_upto(orig, i as nat);
        assert(blocks_view(blocks@).subrange(0, i as int) =~= prefix) by {
            assert(blocks_view(blocks@).subrange(0, i as int) =~= before.subrange(0, i as int));
        }
        proof {
            assert forall|k: int| p <= k < prefix.len() implies offset_key(#[trigger] prefix[k])
                > offset_key(x@) by {
                assert(prefix[k] == blocks_view(blocks@).subrange(0, i as int)[k]);
            }
            if p > 0 {
                assert(prefix[p - 1] == blocks_view(blocks@).subrange(0, i as int)[p - 1]);
            }
            lemma_insert_position(prefix, x@, p as int);
        }
        let ghost mid = blocks_view(blocks@);
        blocks.insert(p, x);
        assert(blocks_view(blocks@) =~= mid.insert(p as int, x@));
        assert(blocks_view(blocks@).subrange(0, i + 1) =~= prefix.insert(p as int, x@)) by {
            assert(mid.subrange(0, i as int) == prefix);
        }
        assert(blocks_view(blocks@).subrange(i + 1, n as int) =~= orig.subrange(i + 1, n as int)) by {
            let a = blocks_view(blocks@).subrange(i + 1, n as int);
            let b = orig.subrange(i + 1, n as int);
            assert forall|k: int| 0 <= k < a.len() implies #[trigger] a[k] == b[k] by {
                assert(before.subrange(i as int, n as int)[k + 1] == orig.subrange(
                    i as int,
                    n as int,
                )[k + 1]);
            }
        }
        i += 1;
    }
    assert(blocks_view(blocks@) =~= blocks_view(blocks@).subrange(0, n as int));
}

/// Whether `item` is a segment whose start lies in the file range of the
/// segment `c`.
pub open spec fn is_container(c: BlockView, item: BlockView) -> bool {
    c is Segment && item is Segment && phdr_contains(c->Segment_0.phdr, item->Segment_0.phdr)
}

/// Whether `blocks[j]` is the first of `blocks` that contains `item`.
pub open spec fn is_first_container(blocks: Seq<BlockView>, item: BlockView, j: int) -> bool {
    &&& 0 <= j < blocks.len()
    &&& is_container(blocks[j], item)
    &&& forall|k: int| 0 <= k < j ==> !is_container(#[trigger] blocks[k], item)
}

/// The position of the first of `blocks` that contains `item`, if any does.
pub open spec fn first_container(blocks: Seq<BlockView>, item: BlockView) -> Option<int> {
    if exists|j: int| is_first_container(blocks, item, j) {
        Some(choose|j: int| is_first_container(blocks, item, j))
    } else {
        None
    }
}

/// The segment `c` once the segment `item` has moved into it: `item`, its
/// offset now counted from the start of `c`, joins the blocks of `c`, which
/// are then put in order of offset.
pub open spec fn adopt(c: BlockView, item: BlockView) -> BlockView {
    match (c, item) {
        (BlockView::Segment(cs), BlockView::Segment(is)) => BlockView::Segment(
            SegmentView {
                phdr: cs.phdr,
                blocks: sort_by_offset(
                    cs.blocks.push(
                        BlockView::Segment(
                            SegmentView {
                                phdr: ProgramHeader {
                                    offset: (is.phdr.offset - cs.phdr.offset) as u64,
                                    ..is.phdr
                                },
                                blocks: is.blocks,
                            },
                        ),
                    ),
                ),
            },
        ),
        _ => c,
    }
}

/// The roots once the segments from position `idx` on have been nested.
///
/// The block at `idx` is taken out. If one of the others contains it, it
/// moves into the first that does, and the block that took its place at
/// `idx` is looked at next. If none does, it goes to the front of the
/// list, and the block behind it is looked at next.
pub open spec fn nest_from(blocks: Seq<BlockView>, idx: nat) -> Seq<BlockView>
    decreases blocks.len() - idx,
{
    if idx >= blocks.len() {
        blocks
    } else {
        let item = blocks[idx as int];
        let rest = blocks.remove(idx as int);
        match first_container(rest, item) {
            Some(j) => {
                if 0 <= j < rest.len() {
                    nest_from(rest.update(j, adopt(rest[j], item)), idx)
                } else {
                    blocks
                }
            },
            None => nest_from(seq![item] + rest, idx + 1),
        }
    }
}

/// Finds the first of `blocks` that contains `item`.
pub fn find_container(blocks: &Vec<Block>, item: &Block) -> (r: Option<usize>)
    ensures
        match r {
            Some(j) => first_container(blocks_view(blocks@), item@) == Some(j as int),
            None => first_container(blocks_view(blocks@), item@) is None,
        },
        r matches Some(j) ==> is_first_container(blocks_view(blocks@), item@, j as int),
{
    let inner = match item {
        Block::Segment(s) => s,
        _ => {
            assert forall|j: int| !is_first_container(blocks_view(blocks@), item@, j) by {}
            return None;
        },
    };
    let mut j: usize = 0;
    while j < blocks.len()
        invariant
            j <= blocks.len(),
            item@ is Segment,
            item@->Segment_0.phdr == inner.phdr,
            forall|k: int| 0 <= k < j ==> !is_container(#[trigger] blocks_view(blocks@)[k], item@),
        decreases blocks.len() - j,
    {
        let found = match &blocks[j] {
            Block::Segment(seg) => seg.contains(inner),
            _ => false,
        };
        assert(found == is_container(blocks_view(blocks@)[j as int], item@));
        if found {
            proof {
                assert(is_first_container(blocks_view(blocks@), item@, j as int));
                let c = choose|c: int| is_first_container(blocks_view(blocks@), item@, c);
                assert(c == j);
            }
            return Some(j);
        }
        j += 1;
    }
    assert forall|c: int| !is_first_container(blocks_view(blocks@), item@, c) by {}
    None
}

/// Moves the segment `item` into the segment at position `j`.
fn adopt_child(blocks: &mut Vec<Block>, j: usize, item: Block)
    requires
        j < old(blocks)@.len(),
        is_container(old(blocks)@[j as int]@, item@),
    ensures
        blocks_view(final(blocks)@) == blocks_view(old(blocks)@).update(
            j as int,
            adopt(old(blocks)@[j as int]@, item@),
        ),
{
    let ghost before = blocks_view(blocks@);
    let c = blocks.remove(j);
    match (c, item) {
        (Block::Segment(mut seg), Block::Segment(mut itm)) => {
            let ghost pushed = blocks_view(seg.blocks@).push(
                BlockView::Segment(
                    SegmentView {
                        phdr: ProgramHeader {
                            offset: (itm.phdr.offset - seg.phdr.offset) as u64,
                            ..itm.phdr
                        },
                        blocks: blocks_view(itm.blocks@),
                    },
                ),
            );
            itm.phdr.offset = itm.phdr.offset - seg.phdr.offset;
            seg.blocks.push(Block::Segment(itm));
            assert(blocks_view(seg.blocks@) =~= pushed);
            sort_blocks(&mut seg.blocks);
            blocks.insert(j, Block::Segment(seg));
        },
        (c, _) => {
            blocks.insert(j, c);
        },
    }
    assert(blocks_view(blocks@) =~= before.update(j as int, adopt(old(blocks)@[j as int]@, item@)));
}

/// Nests the root segments from position `idx` on: each whose start lies
/// in the file range of another root moves into the first such root, its
/// offset then counted from the start of that root.
pub fn nest_segments(blocks: Vec<Block>, idx: usize) -> (r: Vec<Block>)
    ensures
        blocks_view(r@) == nest_from(blocks_view(blocks@), idx as nat),
{
    let ghost start = blocks_view(blocks@);
    let ghost start_idx = idx as nat;
    let mut blocks = blocks;
    let mut idx = idx;
    while idx < blocks.len()
        invariant
            nest_from(blocks_view(blocks@), idx as nat) == nest_from(start, start_idx),
        decreases blocks.len() - idx,
    {
        let ghost before = blocks_view(blocks@);
        let itmb = blocks.remove(idx);
        assert(blocks_view(blocks@) =~= before.remove(idx as int));
        match find_container(&blocks, &itmb) {
            Some(j) => {
                adopt_child(&mut blocks, j, itmb);
            },
            None => {
                let ghost rest = blocks_view(blocks@);
                blocks.insert(0, itmb);
                assert(blocks_view(blocks@) =~= seq![itmb@] + rest);
                idx += 1;
            },
        }
    }
    blocks
}

/// The number of bytes that a child of a segment takes of the segment's
/// file range: the size in the file that its header gives for a segment,
/// the number of bytes it holds for any other block.
pub open spec fn footprint(b: BlockView) -> int {
    match b {
        BlockView::Segment(s) => s.phdr.filesz as int,
        BlockView::Section(s) => s.content.len() as int,
        BlockView::RawDat(d) => d.len() as int,
        BlockView::Padding(d) => d.len() as int,
    }
}

/// How far into the segment the children before child `k` have been seen
/// to reach: the end of child `k - 1`, and 0 for the first child.
pub open spec fn cursor_before(children: Seq<BlockView>, k: int) -> int {
    if k <= 0 {
        0
    } else {
        offset_key(children[k - 1]) + footprint(children[k - 1])
    }
}

/// The raw-data block that goes in front of child `k` of a segment that
/// starts at `origin` in the file: the bytes between the end of the child
/// before it and its own start, where there are any; nothing otherwise.
pub open spec fn gap_before(children: Seq<BlockView>, bin: Seq<u8>, origin: int, k: int) -> Seq<
    BlockView,
> {
    if cursor_before(children, k) < offset_key(children[k]) {
        seq![
            BlockView::RawDat(
                bin.subrange(
                    origin + cursor_before(children, k),
                    origin + offset_key(children[k]),
                ),
            ),
        ]
    } else {
        Seq::empty()
    }
}

/// The raw-data block that goes behind the last child of the segment `s`,
/// which starts at `origin` in the file: the bytes between the end of the
/// last child and the end of the segment, where there are any; nothing
/// otherwise. For a segment without children these are the bytes of its
/// whole range.
pub open spec fn gap_behind(s: SegmentView, bin: Seq<u8>, origin: int) -> Seq<BlockView> {
    if cursor_before(s.blocks, s.blocks.len() as int) < s.phdr.filesz {
        seq![
            BlockView::RawDat(
                bin.subrange(
                    origin + cursor_before(s.blocks, s.blocks.len() as int),
                    origin + s.phdr.filesz,
                ),
            ),
        ]
    } else {
        Seq::empty()
    }
}

/// The block `b`, which starts at `origin` in the file, with its gaps
/// filled. A segment gets a raw-data block in front of each child that
/// does not start where the child before it ends, and one behind its last
/// child where that child ends before the segment does; its child segments
/// are filled in the same way. A segment without children and with a file
/// size becomes one raw-data block of the bytes of its whole range. Any
/// other block stays as it is.
pub open spec fn filled(b: BlockView, bin: Seq<u8>, origin: int) -> BlockView
    decreases b, 0nat,
{
    match b {
        BlockView::Segment(s) => BlockView::Segment(
            SegmentView {
                phdr: s.phdr,
                blocks: filled_upto(s.blocks, bin, origin, s.blocks.len()) + gap_behind(
                    s,
                    bin,
                    origin,
                ),
            },
        ),
        other => other,
    }
}

/// The first `n` children of a segment that starts at `origin`, each with
/// the gap in front of it filled and with its own gaps filled.
pub open spec fn filled_upto(children: Seq<BlockView>, bin: Seq<u8>, origin: int, n: nat) -> Seq<
    BlockView,
>
    decreases children, n,
{
    if n == 0 || n > children.len() {
        Seq::empty()
    } else {
        filled_upto(children, bin, origin, (n - 1) as nat) + gap_before(
            children,
            bin,
            origin,
            n - 1,
        ) + seq![filled(children[n - 1], bin, origin + offset_key(children[n - 1]))]
    }
}

/// Whether the gaps of the block `b`, which starts at `origin`, can be
/// filled from a file of `len` bytes: each stretch of bytes that filling
/// takes lies in the file, and no segment has raw data or padding among
/// its children yet.
pub open spec fn can_fill(b: BlockView, len: int, origin: int) -> bool
    decreases b, 0nat,
{
    match b {
        BlockView::Segment(s) => {
            &&& can_fill_upto(s.blocks, len, origin, s.blocks.len())
            &&& (cursor_before(s.blocks, s.blocks.len() as int) < s.phdr.filesz ==> origin
                + s.phdr.filesz <= len)
        },
        _ => true,
    }
}

/// Whether the gaps in front of and inside the first `n` children of a
/// segment that starts at `origin` can be filled from a file of `len` bytes.
pub open spec fn can_fill_upto(children: Seq<BlockView>, len: int, origin: int, n: nat) -> bool
    decreases children, n,
{
    if n == 0 {
        true
    } else if n > children.len() {
        false
    } else {
        let c = children[n - 1];
        &&& can_fill_upto(children, len, origin, (n - 1) as nat)
        &&& (c is Segment || c is Section)
        &&& (cursor_before(children, n - 1) < offset_key(c) ==> origin + offset_key(c) <= len)
        &&& can_fill(c, len, origin + offset_key(c))
    }
}

/// `v` back to front.
pub fn reversed(v: Vec<Block>) -> (r: Vec<Block>)
    ensures
        r@ == v@.reverse(),
        blocks_view(r@) == blocks_view(v@).reverse(),
{
    let mut v = v;
    let ghost orig = v@;
    let mut r: Vec<Block> = Vec::new();
    while v.len() > 0
        invariant
            v@.len() + r@.len() == orig.len(),
            v@ == orig.subrange(0, v@.len() as int),
            forall|k: int| 0 <= k < r@.len() ==> #[trigger] r@[k] == orig[orig.len() - 1 - k],
        decreases v@.len(),
    {
        let b = v.pop();
        match b {
            Some(b) => {
                r.push(b);
            },
            None => {},
        }
    }
    assert(r@ =~= orig.reverse());
    assert(blocks_view(r@) =~= blocks_view(orig).reverse());
    r
}

/// Fills the gaps of the segment `seg`, which starts at file position `o`.
/// `origin` holds `o` where `o` lies in the file and nothing where it does
/// not.
fn fill_segment(seg: Segment, bin: &Vec<u8>, origin: Option<usize>, Ghost(o): Ghost<int>) -> (r:
    Result<Segment, ParsingError>)
    requires
        0 <= o,
        origin matches Some(v) ==> v == o && o <= bin@.len(),
        origin is None ==> o > bin@.len(),
    ensures
        match r {
            Ok(f) => can_fill(BlockView::Segment(seg@), bin@.len() as int, o)
                && BlockView::Segment(f@) == filled(BlockView::Segment(seg@), bin@, o),
            Err(e) => !can_fill(BlockView::Segment(seg@), bin@.len() as int, o) && e
                == ParsingError::ParsingError,
        },
    decreases seg, 0nat,
{
    let Segment { phdr, blocks } = seg;
    let ghost children = blocks_view(blocks@);
    let (mut new_blocks, cursor) = match fill_children(blocks, bin, origin, Ghost(o)) {
        Ok(done) => done,
        Err(e) => {
            return Err(e);
        },
    };
    let ghost front = blocks_view(new_blocks@);
    if cursor < phdr.filesz as u128 {
        match origin {
            Some(v) => {
                if phdr.filesz > (bin.len() - v) as u64 {
                    return Err(ParsingError::ParsingError);
                }
                let raw = copy_range(bin, v + cursor as usize, v + phdr.filesz as usize);
                new_blocks.push(Block::RawDat(raw));
            },
            None => {
                return Err(ParsingError::ParsingError);
            },
        }
    }
    assert(blocks_view(new_blocks@) =~= front + gap_behind(seg@, bin@, o));
    Ok(Segment { phdr, blocks: new_blocks })
}

/// Fills the gaps in front of and inside the children of a segment that
/// starts at file position `o`, and says where the last child ends.
fn fill_children(children: Vec<Block>, bin: &Vec<u8>, origin: Option<usize>, Ghost(o): Ghost<int>) -> (r:
    Result<(Vec<Block>, u128), ParsingError>)
    requires
        0 <= o,
        origin matches Some(v) ==> v == o && o <= bin@.len(),
        origin is None ==> o > bin@.len(),
    ensures
        match r {
            Ok((f, end)) => can_fill_upto(
                blocks_view(children@),
                bin@.len() as int,
                o,
                children@.len(),
            ) && blocks_view(f@) == filled_upto(blocks_view(children@), bin@, o, children@.len())
                && end == cursor_before(blocks_view(children@), children@.len() as int),
            Err(e) => !can_fill_upto(
                blocks_view(children@),
                bin@.len() as int,
                o,
                children@.len(),
            ) && e == ParsingError::ParsingError,
        },
    decreases children, 1nat,
{
    let ghost cv = blocks_view(children@);
    let ghost len = bin@.len() as int;
    let n = children.len();
    let mut rev = reversed(children);
    let mut out: Vec<Block> = Vec::new();
    let mut cursor: u128 = 0;
    let mut i: usize = 0;
    assert(blocks_view(out@) =~= filled_upto(cv, bin@, o, 0));
    while i < n
        invariant
            i <= n,
            n == children@.len(),
            cv == blocks_view(children@),
            len == bin@.len(),
            0 <= o,
            origin matches Some(v) ==> v == o && o <= len,
            origin is None ==> o > len,
            rev@.len() == n - i,
            forall|k: int| 0 <= k < n - i ==> #[trigger] rev@[k] == children@[n - 1 - k],
            blocks_view(out@) == filled_upto(cv, bin@, o, i as nat),
            can_fill_upto(cv, len, o, i as nat),
            cursor == cursor_before(cv, i as int),
        decreases n - i,
    {
        let child = match rev.pop() {
            Some(c) => c,
            None => {
                return Err(ParsingError::ParsingError);
            },
        };
        assert(child@ == cv[i as int]);
        let (rs, fp): (u64, u128) = match &child {
            Block::Segment(s) => (s.phdr.offset, s.phdr.filesz as u128),
            Block::Section(s) => (s.hdr.offset, s.content.len() as u128),
            _ => {
                proof {
                    lemma_cannot_fill_rest(cv, len, o, (i + 1) as nat, n as nat);
                }
                return Err(ParsingError::ParsingError);
            },
        };
        let child_origin: Option<usize> = match origin {
            Some(v) => {
                if rs <= (bin.len() - v) as u64 {
                    Some(v + rs as usize)
                } else {
                    None
                }
            },
            None => None,
        };
        let ghost before = blocks_view(out@);
        if cursor < rs as u128 {
            match (origin, child_origin) {
                (Some(v), Some(co)) => {
                    let gap = copy_range(bin, v + cursor as usize, co);
                    out.push(Block::RawDat(gap));
                },
                _ => {
                    proof {
                        lemma_cannot_fill_rest(cv, len, o, (i + 1) as nat, n as nat);
                    }
                    return Err(ParsingError::ParsingError);
                },
            }
        }
        assert(blocks_view(out@) =~= before + gap_before(cv, bin@, o, i as int));
        let ghost mid = blocks_view(out@);
        let filled_child = match child {
            Block::Segment(s) => {
                match fill_segment(s, bin, child_origin, Ghost(o + rs)) {
                    Ok(f) => Block::Segment(f),
                    Err(e) => {
                        proof {
                            lemma_cannot_fill_rest(cv, len, o, (i + 1) as nat, n as nat);
                        }
                        return Err(e);
                    },
                }
            },
            other => other,
        };
        assert(filled_child@ == filled(cv[i as int], bin@, o + rs));
        assert(can_fill(cv[i as int], len, o + rs));
        assert(can_fill_upto(cv, len, o, (i + 1) as nat));
        out.push(filled_child);
        assert(blocks_view(out@) =~= mid + seq![filled(cv[i as int], bin@, o + rs)]);
        cursor = rs as u128 + fp;
        i += 1;
    }
    Ok((out, cursor))
}

/// Where the first `n` children cannot be filled, neither can the first
/// `m`, for any `m` from `n` on.
pub proof fn lemma_cannot_fill_rest(children: Seq<BlockView>, len: int, origin: int, n: nat, m: nat)
    requires
        n <= m,
        !can_fill_upto(children, len, origin, n),
    ensures
        !can_fill_upto(children, len, origin, m),
{
    if can_fill_upto(children, len, origin, m) {
        lemma_can_fill_prefix(children, len, origin, n, m);
    }
}

/// Where the first `m` children can be filled, so can the first `n` of
/// them, for any `n` up to `m`.
pub proof fn lemma_can_fill_prefix(children: Seq<BlockView>, len: int, origin: int, n: nat, m: nat)
    requires
        n <= m,
        can_fill_upto(children, len, origin, m),
    ensures
        can_fill_upto(children, len, origin, n),
    decreases m,
{
    if n < m {
        lemma_can_fill_prefix(children, len, origin, n, (m - 1) as nat);
    }
}

/// Fills the stretches of the segment `segment` that none of its children
/// covers with raw-data blocks of the bytes of the file: in front of each
/// child that starts behind the end of the child before it, and behind the
/// last child where it ends before the segment does; and so in every
/// segment inside. `segment_offset` is the position in the file at which
/// the segment starts.
///
/// Fails when a stretch to be filled runs past the end of `bin`, or when a
/// segment has raw data or padding among its children already.
pub fn fill_raw_data_block(segment: Segment, bin: &Vec<u8>, segment_offset: usize) -> (r: Result<
    Segment,
    ParsingError,
>)
    ensures
        match r {
            Ok(f) => can_fill(BlockView::Segment(segment@), bin@.len() as int, segment_offset as int)
                && BlockView::Segment(f@) == filled(
                BlockView::Segment(segment@),
                bin@,
                segment_offset as int,
            ),
            Err(e) => !can_fill(
                BlockView::Segment(segment@),
                bin@.len() as int,
                segment_offset as int,
            ) && e == ParsingError::ParsingError,
        },
{
    let origin = if segment_offset <= bin.len() {
        Some(segment_offset)
    } else {
        None
    };
    fill_segment(segment, bin, origin, Ghost(segment_offset as int))
}

/// The roots of the tree before their gaps are filled: each section in its
/// narrowest fit, the segments nested, and the list of roots turned round,
/// which puts the roots that stayed roots back in table order.
pub open spec fn nested_roots(
    phdrs: Seq<ProgramHeader>,
    shdrs: Seq<SectionHeaderView>,
    bin: Seq<u8>,
) -> Seq<BlockView> {
    nest_from(assign_sections(phdrs, shdrs, bin), 0).reverse()
}

/// Whether the gaps of each of `roots` can be filled from a file of `len`
/// bytes, each root starting at the offset that its header gives.
pub open spec fn roots_can_fill(roots: Seq<BlockView>, len: int) -> bool {
    forall|i: int|
        0 <= i < roots.len() ==> can_fill(#[trigger] roots[i], len, offset_key(roots[i]) as int)
}

/// `roots` with the gaps of each filled, each root starting at the offset
/// that its header gives.
pub open spec fn fill_roots(roots: Seq<BlockView>, bin: Seq<u8>) -> Seq<BlockView> {
    Seq::new(roots.len(), |i: int| filled(roots[i], bin, offset_key(roots[i]) as int))
}

/// Whether the block tree of a file can be built: every stretch of bytes
/// that goes into a section or fills a gap lies in the file.
pub open spec fn tree_ok(
    phdrs: Seq<ProgramHeader>,
    shdrs: Seq<SectionHeaderView>,
    bin: Seq<u8>,
) -> bool {
    sections_in_file(phdrs, shdrs, bin.len()) && roots_can_fill(
        nested_roots(phdrs, shdrs, bin),
        bin.len() as int,
    )
}

/// The block tree of the file `bin` with the program headers `phdrs` and
/// the section headers `shdrs`.
pub open spec fn spec_tree(
    phdrs: Seq<ProgramHeader>,
    shdrs: Seq<SectionHeaderView>,
    bin: Seq<u8>,
) -> Seq<BlockView> {
    fill_roots(nested_roots(phdrs, shdrs, bin), bin)
}

/// Fills the gaps of each of `roots`.
fn fill_all_roots(roots: Vec<Block>, bin: &Vec<u8>) -> (r: Result<Vec<Block>, ParsingError>)
    ensures
        match r {
            Ok(f) => roots_can_fill(blocks_view(roots@), bin@.len() as int) && blocks_view(f@)
                == fill_roots(blocks_view(roots@), bin@),
            Err(e) => !roots_can_fill(blocks_view(roots@), bin@.len() as int) && e
                == ParsingError::ParsingError,
        },
{
    let ghost rv = blocks_view(roots@);
    let n = roots.len();
    let mut rev = reversed(roots);
    let mut out: Vec<Block> = Vec::new();
    let mut i: usize = 0;
    while i < n
        invariant
            i <= n,
            n == roots@.len(),
            rv == blocks_view(roots@),
            rev@.len() == n - i,
            forall|k: int| 0 <= k < n - i ==> #[trigger] rev@[k] == roots@[n - 1 - k],
            out@.len() == i,
            forall|k: int|
                0 <= k < i ==> (#[trigger] out@[k])@ == filled(
                    rv[k],
                    bin@,
                    offset_key(rv[k]) as int,
                ),
            forall|k: int|
                0 <= k < i ==> can_fill(#[trigger] rv[k], bin@.len() as int, offset_key(rv[k]) as int),
        decreases n - i,
    {
        let root = match rev.pop() {
            Some(c) => c,
            None => {
                return Err(ParsingError::ParsingError);
            },
        };
        assert(root == roots@[i as int]);
        assert(root@ == rv[i as int]);
        let done = match root {
            Block::Segment(seg) => {
                let start = seg.phdr.offset;
                let origin = if start <= bin.len() as u64 {
                    Some(start as usize)
                } else {
                    None
                };
                match fill_segment(seg, bin, origin, Ghost(start as int)) {
                    Ok(f) => Block::Segment(f),
                    Err(e) => {
                        assert(!can_fill(rv[i as int], bin@.len() as int, offset_key(rv[i as int]) as int));
                        return Err(e);
                    },
                }
            },
            other => other,
        };
        assert(done@ == filled(rv[i as int], bin@, offset_key(rv[i as int]) as int));
        assert(can_fill(rv[i as int], bin@.len() as int, offset_key(rv[i as int]) as int));
        out.push(done);
        i += 1;
    }
    assert(blocks_view(out@) =~= fill_roots(rv, bin@));
    Ok(out)
}

/// Builds the block tree of the file `bin` from its program headers and
/// its section headers.
///
/// Fails when a section that goes into a segment, or a stretch of a
/// segment that no child covers, runs past the end of `bin`.
pub fn build_tree(
    program_hdrs: &Vec<ProgramHeader>,
    section_hdrs: &Vec<SectionHeader>,
    bin: &Vec<u8>,
) -> (r: Result<Vec<Block>, ParsingError>)
    ensures
        match r {
            Ok(blocks) => tree_ok(program_hdrs@, shdrs_view(section_hdrs@), bin@) && blocks_view(
                blocks@,
            ) == spec_tree(program_hdrs@, shdrs_view(section_hdrs@), bin@),
            Err(e) => !tree_ok(program_hdrs@, shdrs_view(section_hdrs@), bin@) && e
                == ParsingError::ParsingError,
        },
{
    let seeded = match find_sections_narrowfit(program_hdrs, section_hdrs, bin) {
        Ok(b) => b,
        Err(e) => {
            return Err(e);
        },
    };
    let nested = reversed(nest_segments(seeded, 0));
    fill_all_roots(nested, bin)
}

/// Whether the two header tables of `bin` can be read.
pub open spec fn tables_ok(bin: Seq<u8>) -> bool {
    phdr_table_ok(bin) && shdr_table_ok(bin) && names_ok(bin, hdr_shstrndx(bin))
}

/// Whether the block tree of `bin` can be built: its two header tables can
/// be read and every stretch of bytes that the tree takes lies in the file.
pub open spec fn into_blocks_ok(bin: Seq<u8>) -> bool {
    tables_ok(bin) && tree_ok(
        spec_program_headers(bin),
        spec_section_headers(bin, hdr_shstrndx(bin)),
        bin,
    )
}

/// The block tree of the file `bin`.
pub open spec fn spec_into_blocks(bin: Seq<u8>) -> Seq<BlockView> {
    spec_tree(spec_program_headers(bin), spec_section_headers(bin, hdr_shstrndx(bin)), bin)
}

/// Reads the two header tables of the file `bin` and builds its block tree.
///
/// Fails when a table cannot be read or a stretch of bytes that the tree
/// takes runs past the end of the file.
pub fn into_blocks(bin: Vec<u8>) -> (r: Result<Vec<Block>, ParsingError>)
    ensures
        match r {
            Ok(blocks) => into_blocks_ok(bin@) && blocks_view(blocks@) == spec_into_blocks(bin@),
            Err(e) => !into_blocks_ok(bin@) && e == ParsingError::ParsingError,
        },
{
    let program_hdrs = match parse_program_header(&bin) {
        Ok(p) => p,
        Err(e) => {
            return Err(e);
        },
    };
    let shstrndx = read_u16(&bin[0x3E..0x40]);
    let section_hdrs = match parse_section_header(&bin, shstrndx) {
        Ok(s) => s,
        Err(e) => {
            return Err(e);
        },
    };
    build_tree(&program_hdrs, &section_hdrs, &bin)
}

} // verus!
