//! The block tree: segments, sections and raw bytes under one type.

use crate::phdr::Phdr_type;
use crate::section::{Section, SectionView};
use crate::segment::{Segment, SegmentView};
use crate::shdr::{shdrs_view, SectionHeader, SectionHeaderView};
use crate::ParsingError;
use vstd::prelude::*;

verus! {

/// One node of the block tree.
#[derive(Debug)]
pub enum Block {
    Segment(Segment),
    Section(Section),
    RawDat(Vec<u8>),
    Padding(Vec<u8>),
}

/// What a block holds, as mathematical values.
pub enum BlockView {
    Segment(SegmentView),
    Section(SectionView),
    RawDat(Seq<u8>),
    Padding(Seq<u8>),
}

/// The views of a sequence of blocks, one for one.
pub open spec fn blocks_view(blocks: Seq<Block>) -> Seq<BlockView>
    decreases blocks,
{
    Seq::new(
        blocks.len(),
        |i: int|
            if 0 <= i < blocks.len() {
                block_view(blocks[i])
            } else {
                arbitrary()
            },
    )
}

/// What a block holds, as mathematical values.
pub open spec fn block_view(b: Block) -> BlockView
    decreases b,
{
    match b {
        Block::Segment(s) => BlockView::Segment(
            SegmentView { phdr: s.phdr, blocks: blocks_view(s.blocks@) },
        ),
        Block::Section(s) => BlockView::Section(s@),
        Block::RawDat(d) => BlockView::RawDat(d@),
        Block::Padding(d) => BlockView::Padding(d@),
    }
}

/// The view of a sequence of blocks has the view of each block at the
/// block's own position.
pub broadcast proof fn lemma_blocks_view(blocks: Seq<Block>)
    ensures
        (#[trigger] blocks_view(blocks)).len() == blocks.len(),
        forall|i: int| 0 <= i < blocks.len() ==> #[trigger] blocks_view(blocks)[i] == blocks[i]@,
{
    reveal_with_fuel(blocks_view, 2);
}

impl View for Block {
    type V = BlockView;

    open spec fn view(&self) -> BlockView {
        block_view(*self)
    }
}

/// The view of a block that is a segment is the view of the segment; that
/// of any other block holds the block's own bytes.
pub broadcast proof fn lemma_block_view(b: Block)
    ensures
        #[trigger] b@ == match b {
            Block::Segment(s) => BlockView::Segment(s@),
            Block::Section(s) => BlockView::Section(s@),
            Block::RawDat(d) => BlockView::RawDat(d@),
            Block::Padding(d) => BlockView::Padding(d@),
        },
{
    reveal_with_fuel(block_view, 2);
}

/// What the blocks of this module's views are made of.
pub broadcast group group_block_views {
    lemma_blocks_view,
    lemma_block_view,
}

/// The bytes that a block stands for in a file: its own for raw data,
/// padding and a section, those of its children in order for a segment.
pub open spec fn flat(b: BlockView) -> Seq<u8>
    decreases b, 0nat,
{
    match b {
        BlockView::Segment(s) => flat_upto(s.blocks, s.blocks.len()),
        BlockView::Section(s) => s.content,
        BlockView::RawDat(d) => d,
        BlockView::Padding(d) => d,
    }
}

/// The bytes of the first `n` blocks of `blocks`, one after the other.
pub open spec fn flat_upto(blocks: Seq<BlockView>, n: nat) -> Seq<u8>
    decreases blocks, n,
{
    if n == 0 || n > blocks.len() {
        Seq::empty()
    } else {
        flat_upto(blocks, (n - 1) as nat) + flat(blocks[n - 1])
    }
}

/// The bytes of all of `blocks`, one after the other.
pub open spec fn flat_all(blocks: Seq<BlockView>) -> Seq<u8> {
    flat_upto(blocks, blocks.len())
}

/// A copy of `blocks`, block by block.
pub fn clone_blocks(blocks: &Vec<Block>) -> (r: Vec<Block>)
    ensures
        blocks_view(r@) == blocks_view(blocks@),
    decreases blocks, 1nat,
{
    broadcast use group_block_views;

    let mut r: Vec<Block> = Vec::new();
    let mut i: usize = 0;
    while i < blocks.len()
        invariant
            i <= blocks.len(),
            r@.len() == i,
            forall|k: int| 0 <= k < i ==> (#[trigger] r@[k])@ == blocks@[k]@,
        decreases blocks.len() - i,
    {
        r.push(clone_block(&blocks[i]));
        i += 1;
    }
    assert(blocks_view(r@) =~= blocks_view(blocks@));
    r
}

/// A copy of `block` with everything inside it.
pub fn clone_block(block: &Block) -> (r: Block)
    ensures
        r@ == block@,
    decreases block, 0nat,
{
    broadcast use group_block_views;

    match block {
        Block::Segment(s) => Block::Segment(
            Segment { phdr: s.phdr, blocks: clone_blocks(&s.blocks) },
        ),
        Block::Section(s) => Block::Section(s.clone()),
        Block::RawDat(d) => {
            let mut c: Vec<u8> = Vec::new();
            extend_bytes(&mut c, d);
            assert(c@ =~= d@);
            Block::RawDat(c)
        },
        Block::Padding(d) => {
            let mut c: Vec<u8> = Vec::new();
            extend_bytes(&mut c, d);
            assert(c@ =~= d@);
            Block::Padding(c)
        },
    }
}

impl Clone for Block {
    fn clone(&self) -> (r: Block)
        ensures
            r@ == self@,
    {
        clone_block(self)
    }
}

/// Appends the bytes of `block` to `out`.
fn flatten_block(block: &Block, out: &mut Vec<u8>)
    ensures
        final(out)@ == old(out)@ + flat(block@),
    decreases block, 0nat,
{
    match block {
        Block::Segment(s) => {
            flatten_blocks(&s.blocks, out);
        },
        Block::Section(s) => {
            extend_bytes(out, &s.content);
        },
        Block::RawDat(d) => {
            extend_bytes(out, d);
        },
        Block::Padding(d) => {
            extend_bytes(out, d);
        },
    }
}

/// Appends the bytes of each of `blocks`, in order, to `out`.
pub(crate) fn flatten_blocks(blocks: &Vec<Block>, out: &mut Vec<u8>)
    ensures
        final(out)@ == old(out)@ + flat_all(blocks_view(blocks@)),
    decreases blocks, 1nat,
{
    let mut i: usize = 0;
    while i < blocks.len()
        invariant
            i <= blocks.len(),
            out@ == old(out)@ + flat_upto(blocks_view(blocks@), i as nat),
        decreases blocks.len() - i,
    {
        flatten_block(&blocks[i], out);
        assert(out@ =~= old(out)@ + flat_upto(blocks_view(blocks@), (i + 1) as nat));
        i += 1;
    }
}

/// Appends a copy of `bytes` to `out`.
pub(crate) fn extend_bytes(out: &mut Vec<u8>, bytes: &Vec<u8>)
    ensures
        final(out)@ == old(out)@ + bytes@,
{
    out.extend_from_slice(bytes.as_slice());
    assert(out@ =~= old(out)@ + bytes@);
}

impl Block {
    /// The bytes that the block stands for in a file.
    pub fn to_bin(self) -> (bin: Vec<u8>)
        ensures
            bin@ == flat(self@),
    {
        match self {
            Block::Segment(t) => t.to_le(),
            Block::Section(t) => t.to_le(),
            Block::RawDat(t) => t,
            Block::Padding(t) => t,
        }
    }

    /// The segment that the block is, if it is one.
    pub fn segment(&self) -> (r: Result<&Segment, ParsingError>)
        ensures
            match *self {
                Block::Segment(s) => r == Ok::<&Segment, ParsingError>(&s),
                _ => r == Err::<&Segment, ParsingError>(ParsingError::ParsingError),
            },
    {
        match self {
            Block::Segment(s) => Ok(s),
            _ => Err(ParsingError::ParsingError),
        }
    }

    /// The bytes of a raw-data block, if the block is one.
    pub fn raw_dat(&self) -> (r: Result<&Vec<u8>, ParsingError>)
        ensures
            match *self {
                Block::RawDat(d) => r == Ok::<&Vec<u8>, ParsingError>(&d),
                _ => r == Err::<&Vec<u8>, ParsingError>(ParsingError::ParsingError),
            },
    {
        match self {
            Block::RawDat(s) => Ok(s),
            _ => Err(ParsingError::ParsingError),
        }
    }

    /// The bytes of a raw-data block, to be changed in place, if the block
    /// is one.
    pub fn raw_dat_mut(&mut self) -> (r: Result<&mut Vec<u8>, ParsingError>)
        ensures
            match r {
                Ok(d) => *old(self) == Block::RawDat(*d) && *final(self) == Block::RawDat(
                    *final(d),
                ),
                Err(e) => !(*old(self) is RawDat) && e == ParsingError::ParsingError && *final(self)
                    == *old(self),
            },
    {
        match self {
            Block::RawDat(s) => Ok(s),
            _ => Err(ParsingError::ParsingError),
        }
    }

    /// The segment that the block is, to be changed in place, if it is one.
    pub fn segment_mut(&mut self) -> (r: Result<&mut Segment, ParsingError>)
        ensures
            match r {
                Ok(s) => *old(self) == Block::Segment(*s) && *final(self) == Block::Segment(
                    *final(s),
                ),
                Err(e) => !(*old(self) is Segment) && e == ParsingError::ParsingError && *final(self)
                    == *old(self),
            },
    {
        match self {
            Block::Segment(s) => Ok(s),
            _ => Err(ParsingError::ParsingError),
        }
    }

    /// The number of bytes that the block stands for in a file.
    pub fn size(&self) -> (n: usize)
        requires
            flat(self@).len() <= usize::MAX,
        ensures
            n == flat(self@).len(),
        decreases self, 0nat,
    {
        match self {
            Block::Segment(s) => size(&s.blocks),
            Block::Section(s) => s.content.len(),
            Block::RawDat(s) => s.len(),
            Block::Padding(s) => s.len(),
        }
    }
}

/// Each prefix of a list of blocks flattens to a prefix of what the whole
/// list flattens to.
pub proof fn lemma_flat_upto_monotone(blocks: Seq<BlockView>, i: nat, j: nat)
    requires
        i <= j <= blocks.len(),
    ensures
        flat_upto(blocks, i).len() <= flat_upto(blocks, j).len(),
        flat_upto(blocks, j).len() >= flat_upto(blocks, i).len() + (if i < j {
            flat(blocks[i as int]).len()
        } else {
            0
        }),
    decreases j,
{
    if i < j {
        lemma_flat_upto_monotone(blocks, i, (j - 1) as nat);
    }
}

/// The number of bytes that `blocks` stand for in a file.
pub fn size(blocks: &Vec<Block>) -> (len: usize)
    requires
        flat_all(blocks_view(blocks@)).len() <= usize::MAX,
    ensures
        len == flat_all(blocks_view(blocks@)).len(),
    decreases blocks, 1nat,
{
    let mut len: usize = 0;
    let mut i: usize = 0;
    while i < blocks.len()
        invariant
            i <= blocks.len(),
            len == flat_upto(blocks_view(blocks@), i as nat).len(),
            flat_all(blocks_view(blocks@)).len() <= usize::MAX,
        decreases blocks.len() - i,
    {
        proof {
            lemma_flat_upto_monotone(blocks_view(blocks@), i as nat, blocks.len() as nat);
            lemma_flat_upto_monotone(blocks_view(blocks@), (i + 1) as nat, blocks.len() as nat);
        }
        len += blocks[i].size();
        i += 1;
    }
    len
}

/// The raw bytes in the first segment of kind `PHDR` that is met from
/// position `k` of `blocks` on, each segment looked at before the blocks
/// behind it and before the segments inside it: the bytes of the first
/// child of that segment, where that child is raw data. Nothing where no
/// such segment is met or where its first child is missing or not raw data.
pub open spec fn phdr_inner_from(blocks: Seq<BlockView>, k: nat) -> Option<Seq<u8>>
    decreases blocks, blocks.len() - k,
{
    if k >= blocks.len() {
        None
    } else {
        match blocks[k as int] {
            BlockView::Segment(s) => if s.phdr.p_type == Phdr_type::PHDR {
                if s.blocks.len() > 0 && s.blocks[0] is RawDat {
                    Some(s.blocks[0]->RawDat_0)
                } else {
                    None
                }
            } else {
                match phdr_inner_from(s.blocks, 0) {
                    Some(d) => Some(d),
                    None => phdr_inner_from(blocks, k + 1),
                }
            },
            _ => phdr_inner_from(blocks, k + 1),
        }
    }
}

/// The position among `blocks`, from `k` on, of the block in which the raw
/// bytes of the first segment of kind `PHDR` are found: that segment
/// itself or a segment that has it inside.
pub open spec fn phdr_holder_from(blocks: Seq<BlockView>, k: nat) -> Option<int>
    decreases blocks.len() - k,
{
    if k >= blocks.len() {
        None
    } else {
        match blocks[k as int] {
            BlockView::Segment(s) => if s.phdr.p_type == Phdr_type::PHDR {
                if s.blocks.len() > 0 && s.blocks[0] is RawDat {
                    Some(k as int)
                } else {
                    None
                }
            } else if phdr_inner_from(s.blocks, 0) is Some {
                Some(k as int)
            } else {
                phdr_holder_from(blocks, k + 1)
            },
            _ => phdr_holder_from(blocks, k + 1),
        }
    }
}

/// `blocks` with `new` in place of the raw bytes of the first segment of
/// kind `PHDR`; `blocks` as they are where there are no such bytes.
pub open spec fn with_phdr_inner(blocks: Seq<BlockView>, new: Seq<u8>) -> Seq<BlockView>
    decreases blocks,
{
    match phdr_holder_from(blocks, 0) {
        Some(k) => if 0 <= k < blocks.len() && blocks[k] is Segment {
            let s = blocks[k]->Segment_0;
            blocks.update(
                k,
                BlockView::Segment(
                    SegmentView {
                        phdr: s.phdr,
                        blocks: if s.phdr.p_type == Phdr_type::PHDR {
                            s.blocks.update(0, BlockView::RawDat(new))
                        } else {
                            with_phdr_inner(s.blocks, new)
                        },
                    },
                ),
            )
        } else {
            blocks
        },
        None => blocks,
    }
}

/// Where the raw bytes of the first segment of kind `PHDR` are found from
/// position `k` on, they are found in the block that holds them.
pub proof fn lemma_phdr_holder(blocks: Seq<BlockView>, k: nat)
    ensures
        match phdr_holder_from(blocks, k) {
            Some(i) => {
                &&& k <= i < blocks.len()
                &&& blocks[i] is Segment
                &&& phdr_inner_from(blocks, k) is Some
                &&& phdr_inner_from(blocks, k) == if blocks[i]->Segment_0.phdr.p_type
                    == Phdr_type::PHDR {
                    Some(blocks[i]->Segment_0.blocks[0]->RawDat_0)
                } else {
                    phdr_inner_from(blocks[i]->Segment_0.blocks, 0)
                }
                &&& blocks[i]->Segment_0.phdr.p_type == Phdr_type::PHDR ==> blocks[i]->Segment_0.blocks.len()
                    > 0 && blocks[i]->Segment_0.blocks[0] is RawDat
            },
            None => phdr_inner_from(blocks, k) is None,
        },
    decreases blocks.len() - k,
{
    if k < blocks.len() {
        match blocks[k as int] {
            BlockView::Segment(s) => {
                if s.phdr.p_type != Phdr_type::PHDR && phdr_inner_from(s.blocks, 0) is None {
                    lemma_phdr_holder(blocks, k + 1);
                }
            },
            _ => {
                lemma_phdr_holder(blocks, k + 1);
            },
        }
    }
}

/// Looks for the raw bytes of the first segment of kind `PHDR`.
fn find_phdr_inner(blocks: &Vec<Block>) -> (r: Option<&Vec<u8>>)
    ensures
        match r {
            Some(d) => phdr_inner_from(blocks_view(blocks@), 0) == Some(d@),
            None => phdr_inner_from(blocks_view(blocks@), 0) is None,
        },
    decreases blocks,
{
    broadcast use group_block_views;

    let mut k: usize = 0;
    while k < blocks.len()
        invariant
            k <= blocks.len(),
            phdr_inner_from(blocks_view(blocks@), 0) == phdr_inner_from(
                blocks_view(blocks@),
                k as nat,
            ),
        decreases blocks.len() - k,
    {
        assert(blocks_view(blocks@)[k as int] == blocks@[k as int]@);
        match &blocks[k] {
            Block::Segment(s) => {
                assert(blocks@[k as int]@ == BlockView::Segment(s@));
                if s.phdr.p_type == Phdr_type::PHDR {
                    if s.blocks.len() > 0 {
                        assert(blocks_view(s.blocks@)[0] == s.blocks@[0]@);
                        return match &s.blocks[0] {
                            Block::RawDat(d) => Some(d),
                            _ => None,
                        };
                    } else {
                        return None;
                    }
                }
                match find_phdr_inner(&s.blocks) {
                    Some(d) => {
                        return Some(d);
                    },
                    None => {},
                }
            },
            _ => {},
        }
        k += 1;
    }
    None
}

/// Finds the block in which the raw bytes of the first segment of kind
/// `PHDR` lie.
fn find_phdr_holder(blocks: &Vec<Block>) -> (r: Option<usize>)
    ensures
        match r {
            Some(i) => phdr_holder_from(blocks_view(blocks@), 0) == Some(i as int),
            None => phdr_holder_from(blocks_view(blocks@), 0) is None,
        },
{
    broadcast use group_block_views;

    let mut k: usize = 0;
    while k < blocks.len()
        invariant
            k <= blocks.len(),
            phdr_holder_from(blocks_view(blocks@), 0) == phdr_holder_from(
                blocks_view(blocks@),
                k as nat,
            ),
        decreases blocks.len() - k,
    {
        assert(blocks_view(blocks@)[k as int] == blocks@[k as int]@);
        match &blocks[k] {
            Block::Segment(s) => {
                assert(blocks@[k as int]@ == BlockView::Segment(s@));
                if s.phdr.p_type == Phdr_type::PHDR {
                    if s.blocks.len() > 0 {
                        assert(blocks_view(s.blocks@)[0] == s.blocks@[0]@);
                        return match &s.blocks[0] {
                            Block::RawDat(_) => Some(k),
                            _ => None,
                        };
                    } else {
                        return None;
                    }
                }
                if find_phdr_inner(&s.blocks).is_some() {
                    return Some(k);
                }
            },
            _ => {},
        }
        k += 1;
    }
    None
}

/// The raw bytes of the program-header table as the tree holds them, to be
/// changed in place: the first child of the first segment of kind `PHDR`,
/// each segment looked at before the segments inside it and before the
/// blocks behind it. Fails where the tree has no such segment or the first
/// child of that segment is not raw data.
pub fn get_phdr_inner(blocks: &mut Vec<Block>) -> (r: Result<&mut Vec<u8>, ParsingError>)
    ensures
        match r {
            Ok(d) => phdr_inner_from(blocks_view(old(blocks)@), 0) == Some(d@) && blocks_view(
                final(blocks)@,
            ) == with_phdr_inner(blocks_view(old(blocks)@), final(d)@),
            Err(e) => phdr_inner_from(blocks_view(old(blocks)@), 0) is None && e
                == ParsingError::ParsingError && *final(blocks) == *old(blocks),
        },
    decreases *old(blocks),
{
    broadcast use group_block_views;

    proof {
        lemma_phdr_holder(blocks_view(blocks@), 0);
    }
    let k = match find_phdr_holder(blocks) {
        Some(k) => k,
        None => {
            return Err(ParsingError::ParsingError);
        },
    };
    assert(blocks_view(blocks@)[k as int] == blocks@[k as int]@);
    let ghost before = blocks@;
    let holder: &mut Block = &mut blocks[k];
    proof {
        lemma_blocks_view_update(before, k as int, *final(holder));
    }
    match holder {
        Block::Segment(s) => {
            let ghost children = s.blocks@;
            if s.phdr.p_type == Phdr_type::PHDR {
                assert(blocks_view(s.blocks@)[0] == s.blocks@[0]@);
                let first: &mut Block = &mut s.blocks[0];
                proof {
                    lemma_blocks_view_update(children, 0, *final(first));
                }
                match first {
                    Block::RawDat(d) => Ok(d),
                    _ => Err(ParsingError::ParsingError),
                }
            } else {
                get_phdr_inner(&mut s.blocks)
            }
        },
        _ => Err(ParsingError::ParsingError),
    }
}

/// The view of a list with a block put in place of another has the view of
/// that block in the place of the other's.
pub proof fn lemma_blocks_view_update(blocks: Seq<Block>, k: int, b: Block)
    requires
        0 <= k < blocks.len(),
    ensures
        blocks_view(blocks.update(k, b)) == blocks_view(blocks).update(k, b@),
{
    broadcast use group_block_views;

    assert(blocks_view(blocks.update(k, b)) =~= blocks_view(blocks).update(k, b@));
}

/// The bytes of the first raw-data block in the first of `blocks`, where
/// that is a segment and has one.
pub open spec fn elfhdr_inner(blocks: Seq<BlockView>) -> Option<Seq<u8>> {
    if blocks.len() > 0 && blocks[0] is Segment {
        first_raw_from(blocks[0]->Segment_0.blocks, 0)
    } else {
        None
    }
}

/// The bytes of the first raw-data block among `blocks` from position `k` on.
pub open spec fn first_raw_from(blocks: Seq<BlockView>, k: nat) -> Option<Seq<u8>>
    decreases blocks.len() - k,
{
    if k >= blocks.len() {
        None
    } else if blocks[k as int] is RawDat {
        Some(blocks[k as int]->RawDat_0)
    } else {
        first_raw_from(blocks, k + 1)
    }
}

/// The position of the first raw-data block among `blocks` from position
/// `k` on.
pub open spec fn first_raw_index_from(blocks: Seq<BlockView>, k: nat) -> Option<int>
    decreases blocks.len() - k,
{
    if k >= blocks.len() {
        None
    } else if blocks[k as int] is RawDat {
        Some(k as int)
    } else {
        first_raw_index_from(blocks, k + 1)
    }
}

/// The first raw-data block is at the position of the first raw-data block.
pub proof fn lemma_first_raw(blocks: Seq<BlockView>, k: nat)
    ensures
        match first_raw_index_from(blocks, k) {
            Some(i) => k <= i < blocks.len() && blocks[i] is RawDat && first_raw_from(blocks, k)
                == Some(blocks[i]->RawDat_0),
            None => first_raw_from(blocks, k) is None,
        },
    decreases blocks.len() - k,
{
    if k < blocks.len() && !(blocks[k as int] is RawDat) {
        lemma_first_raw(blocks, k + 1);
    }
}

/// Finds the first raw-data block among `blocks`.
fn first_raw_index(blocks: &Vec<Block>) -> (r: Option<usize>)
    ensures
        match r {
            Some(i) => first_raw_index_from(blocks_view(blocks@), 0) == Some(i as int),
            None => first_raw_index_from(blocks_view(blocks@), 0) is None,
        },
{
    broadcast use group_block_views;

    let mut k: usize = 0;
    while k < blocks.len()
        invariant
            k <= blocks.len(),
            first_raw_index_from(blocks_view(blocks@), 0) == first_raw_index_from(
                blocks_view(blocks@),
                k as nat,
            ),
        decreases blocks.len() - k,
    {
        assert(blocks_view(blocks@)[k as int] == blocks@[k as int]@);
        match &blocks[k] {
            Block::RawDat(_) => {
                return Some(k);
            },
            _ => {},
        }
        k += 1;
    }
    None
}

/// `blocks` with `new` in place of the bytes of the first raw-data block in
/// the first of `blocks`; `blocks` as they are where there is no such block.
pub open spec fn with_elfhdr_inner(blocks: Seq<BlockView>, new: Seq<u8>) -> Seq<BlockView> {
    if blocks.len() > 0 && blocks[0] is Segment {
        let s = blocks[0]->Segment_0;
        match first_raw_index_from(s.blocks, 0) {
            Some(k) => blocks.update(
                0,
                BlockView::Segment(
                    SegmentView { phdr: s.phdr, blocks: s.blocks.update(k, BlockView::RawDat(new)) },
                ),
            ),
            None => blocks,
        }
    } else {
        blocks
    }
}

/// The raw bytes of the file header as the tree holds them, to be changed
/// in place: the first raw-data child of the first root. Fails where there
/// is no root, the first root is no segment, or it has no raw-data child.
pub fn get_elfhdr_inner(blocks: &mut Vec<Block>) -> (r: Result<&mut Vec<u8>, ParsingError>)
    ensures
        match r {
            Ok(d) => elfhdr_inner(blocks_view(old(blocks)@)) == Some(d@) && blocks_view(
                final(blocks)@,
            ) == with_elfhdr_inner(blocks_view(old(blocks)@), final(d)@),
            Err(e) => elfhdr_inner(blocks_view(old(blocks)@)) is None && e
                == ParsingError::ParsingError && *final(blocks) == *old(blocks),
        },
{
    broadcast use group_block_views;

    if blocks.len() == 0 {
        return Err(ParsingError::ParsingError);
    }
    assert(blocks_view(blocks@)[0] == blocks@[0]@);
    let found = match &blocks[0] {
        Block::Segment(s) => first_raw_index(&s.blocks),
        _ => None,
    };
    proof {
        if blocks@[0] is Segment {
            lemma_first_raw(blocks_view(blocks@)[0]->Segment_0.blocks, 0);
        }
    }
    let k = match found {
        Some(k) => k,
        None => {
            return Err(ParsingError::ParsingError);
        },
    };
    let ghost before = blocks@;
    let firstelem: &mut Block = &mut blocks[0];
    proof {
        lemma_blocks_view_update(before, 0, *final(firstelem));
    }
    match firstelem {
        Block::Segment(s) => {
            let ghost children = s.blocks@;
            let blk: &mut Block = &mut s.blocks[k];
            proof {
                lemma_blocks_view_update(children, k as int, *final(blk));
            }
            match blk {
                Block::RawDat(d) => Ok(d),
                _ => Err(ParsingError::ParsingError),
            }
        },
        _ => Err(ParsingError::ParsingError),
    }
}

/// `size` zero bytes, the payload of a padding block.
pub fn pad(size: u32) -> (r: Vec<u8>)
    ensures
        r@ == Seq::new(size as nat, |i: int| 0u8),
{
    let mut r: Vec<u8> = Vec::new();
    let mut i: u32 = 0;
    while i < size
        invariant
            i <= size,
            r@ == Seq::new(i as nat, |k: int| 0u8),
        decreases size - i,
    {
        r.push(0);
        assert(r@ =~= Seq::new((i + 1) as nat, |k: int| 0u8));
        i += 1;
    }
    r
}

/// The headers of the sections among the first `n` of `blocks`, in tree
/// order, each with the file position of its section as its offset, where
/// the first of `blocks` starts at file position `offset`.
pub open spec fn headers_upto(blocks: Seq<BlockView>, offset: int, n: nat) -> Seq<
    SectionHeaderView,
>
    decreases blocks, n,
{
    if n == 0 || n > blocks.len() {
        Seq::empty()
    } else {
        headers_upto(blocks, offset, (n - 1) as nat) + block_headers(
            blocks[n - 1],
            offset + flat_upto(blocks, (n - 1) as nat).len(),
        )
    }
}

/// The headers of the sections in the block `b`, which starts at file
/// position `offset`: that of `b` itself for a section, those of the
/// sections inside it for a segment, none for raw data and padding.
pub open spec fn block_headers(b: BlockView, offset: int) -> Seq<SectionHeaderView>
    decreases b, 0nat,
{
    match b {
        BlockView::Segment(s) => headers_upto(s.blocks, offset, s.blocks.len()),
        BlockView::Section(s) => seq![SectionHeaderView { offset: offset as u64, ..s.hdr }],
        _ => Seq::empty(),
    }
}

/// The section-header table that the tree `blocks` gives when its first
/// block starts at file position `offset`.
pub open spec fn spec_generate_section_headers(blocks: Seq<BlockView>, offset: int) -> Seq<
    SectionHeaderView,
> {
    headers_upto(blocks, offset, blocks.len())
}

/// Walks the tree in file order and collects the header of each section it
/// meets, with the section's position in the file as its offset. `offset`
/// is the file position at which the first of `blocks` starts.
pub fn generate_section_headers(blocks: &Vec<Block>, offset: usize) -> (sections_headers: Vec<
    SectionHeader,
>)
    requires
        offset + flat_all(blocks_view(blocks@)).len() <= usize::MAX,
    ensures
        shdrs_view(sections_headers@) == spec_generate_section_headers(
            blocks_view(blocks@),
            offset as int,
        ),
    decreases blocks,
{
    broadcast use group_block_views;

    let ghost bv = blocks_view(blocks@);
    let mut sections_headers: Vec<SectionHeader> = Vec::new();
    let mut offset = offset;
    let ghost start = offset as int;
    let mut i: usize = 0;
    assert(shdrs_view(sections_headers@) =~= headers_upto(bv, start, 0));
    while i < blocks.len()
        invariant
            i <= blocks.len(),
            bv == blocks_view(blocks@),
            start + flat_all(bv).len() <= usize::MAX,
            offset == start + flat_upto(bv, i as nat).len(),
            shdrs_view(sections_headers@) == headers_upto(bv, start, i as nat),
        decreases blocks.len() - i,
    {
        proof {
            lemma_flat_upto_monotone(bv, i as nat, blocks.len() as nat);
            lemma_flat_upto_monotone(bv, (i + 1) as nat, blocks.len() as nat);
        }
        let ghost before = shdrs_view(sections_headers@);
        let ghost off = offset as int;
        assert(bv[i as int] == blocks@[i as int]@);
        match &blocks[i] {
            Block::Segment(s) => {
                assert(bv[i as int] == BlockView::Segment(s@));
                assert(flat(bv[i as int]) == flat_all(blocks_view(s.blocks@)));
                let mut inner = generate_section_headers(&s.blocks, offset);
                let ghost inner_view = shdrs_view(inner@);
                sections_headers.append(&mut inner);
                assert(shdrs_view(sections_headers@) =~= before + inner_view);
                assert(inner_view == block_headers(bv[i as int], off));
                offset += size(&s.blocks);
            },
            Block::Section(s) => {
                let shdr = s.hdr.with_offset(offset as u64);
                sections_headers.push(shdr);
                assert(shdrs_view(sections_headers@) =~= before + seq![shdr@]);
                assert(seq![shdr@] == block_headers(bv[i as int], off));
                offset += s.content.len();
            },
            Block::RawDat(s) => {
                offset += s.len();
                assert(shdrs_view(sections_headers@) =~= before + Seq::empty());
                assert(Seq::<SectionHeaderView>::empty() == block_headers(bv[i as int], off));
            },
            Block::Padding(s) => {
                offset += s.len();
                assert(shdrs_view(sections_headers@) =~= before + Seq::empty());
                assert(Seq::<SectionHeaderView>::empty() == block_headers(bv[i as int], off));
            },
        }
        assert(shdrs_view(sections_headers@) == before + block_headers(bv[i as int], off));
        assert(offset == start + flat_upto(bv, (i + 1) as nat).len());
        i += 1;
    }
    sections_headers
}

} // verus!
