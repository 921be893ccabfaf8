//! A segment of the block tree: a program header and the blocks inside it.

use crate::block::{blocks_view, flat_all, flatten_blocks, Block, BlockView};
use crate::phdr::ProgramHeader;
use crate::shdr::SectionHeader;
use vstd::prelude::*;

verus! {

/// A segment and what lies inside it, in file order. The offset in `phdr`
/// is a file position for a root of the tree and counts from the start of
/// the enclosing segment otherwise.
#[derive(Debug)]
pub struct Segment {
    pub phdr: ProgramHeader,
    pub blocks: Vec<Block>,
}

/// What a segment holds, as mathematical values.
pub struct SegmentView {
    pub phdr: ProgramHeader,
    pub blocks: Seq<BlockView>,
}

impl View for Segment {
    type V = SegmentView;

    open spec fn view(&self) -> SegmentView {
        SegmentView { phdr: self.phdr, blocks: blocks_view(self.blocks@) }
    }
}

/// Whether the start of `inner` lies in the file range of `outer`.
pub open spec fn phdr_contains(outer: ProgramHeader, inner: ProgramHeader) -> bool {
    outer.offset <= inner.offset < outer.offset + outer.filesz
}

impl Clone for Segment {
    fn clone(&self) -> (r: Segment)
        ensures
            r@ == self@,
    {
        Segment { phdr: self.phdr, blocks: crate::block::clone_blocks(&self.blocks) }
    }
}

impl Segment {
    /// A segment with the given header and nothing inside it yet. The bytes
    /// and the section headers are not looked at.
    pub fn from(bin: Vec<u8>, phdr: ProgramHeader, shdrs: Vec<SectionHeader>) -> (seg: Segment)
        ensures
            seg@ == (SegmentView { phdr: phdr, blocks: Seq::empty() }),
    {
        let seg = Segment { phdr, blocks: Vec::new() };
        assert(seg@.blocks =~= Seq::empty());
        seg
    }

    /// The bytes of the blocks inside the segment, in order.
    pub fn to_le(self) -> (bin: Vec<u8>)
        ensures
            bin@ == flat_all(self@.blocks),
    {
        let mut bin: Vec<u8> = Vec::new();
        flatten_blocks(&self.blocks, &mut bin);
        assert(bin@ =~= flat_all(self@.blocks));
        bin
    }

    /// Sets the offset in the segment's header.
    pub fn offset(&mut self, offset: usize)
        ensures
            final(self).phdr == (ProgramHeader { offset: offset as u64, ..old(self).phdr }),
            final(self).blocks == old(self).blocks,
    {
        self.phdr.offset = offset as u64;
    }

    /// Whether the start of `seg` lies in the file range of this segment.
    pub fn contains(&self, seg: &Segment) -> (r: bool)
        ensures
            r == phdr_contains(self.phdr, seg.phdr),
    {
        self.phdr.offset <= seg.phdr.offset && seg.phdr.offset - self.phdr.offset
            < self.phdr.filesz
    }
}

/// The views of a sequence of segments, one for one.
pub open spec fn segments_view(segments: Seq<Segment>) -> Seq<SegmentView> {
    Seq::new(segments.len(), |i: int| segments[i]@)
}

/// The bytes of the headers of the first `n` of `segments`, each with
/// `bias` added to its offset, one after the other.
pub open spec fn phdrs_blob(segments: Seq<SegmentView>, bias: usize, n: nat) -> Seq<u8>
    decreases n,
{
    if n == 0 || n > segments.len() {
        Seq::empty()
    } else {
        phdrs_blob(segments, bias, (n - 1) as nat) + segments[n - 1].phdr.spec_to_le_offset(bias)
    }
}

/// The program-header table of `segments`: the header of each, with
/// `offset` added to its own offset, in order.
pub fn get_phdrs_blob(segments: &Vec<Segment>, offset: usize) -> (blob: Vec<u8>)
    ensures
        blob@ == phdrs_blob(segments_view(segments@), offset, segments@.len()),
{
    let mut blob: Vec<u8> = Vec::new();
    let mut i: usize = 0;
    while i < segments.len()
        invariant
            i <= segments.len(),
            blob@ == phdrs_blob(segments_view(segments@), offset, i as nat),
        decreases segments.len() - i,
    {
        let mut entry = segments[i].phdr.to_le_offset(offset);
        let ghost before = blob@;
        let ghost bytes = entry@;
        blob.append(&mut entry);
        assert(blob@ =~= before + bytes);
        i += 1;
    }
    blob
}

/// The size in the file of the segment with the header `p`, rounded up to
/// the next multiple of its alignment that is greater than the size.
pub open spec fn padded_size(p: ProgramHeader) -> int
    recommends
        p.p_align != 0,
{
    p.filesz + (p.p_align - p.filesz % p.p_align)
}

/// The padded sizes of the first `n` of `segments`, added up.
pub open spec fn segments_size(segments: Seq<SegmentView>, n: nat) -> int
    decreases n,
{
    if n == 0 || n > segments.len() {
        0
    } else {
        segments_size(segments, (n - 1) as nat) + padded_size(segments[n - 1].phdr)
    }
}

/// The padded sizes of the first `n` of `segments` add up to no more than
/// those of the first `m`, for `n` up to `m`.
pub proof fn lemma_segments_size_monotone(segments: Seq<SegmentView>, n: nat, m: nat)
    requires
        n <= m <= segments.len(),
        forall|i: int| 0 <= i < segments.len() ==> (#[trigger] segments[i]).phdr.p_align != 0,
    ensures
        0 <= segments_size(segments, n) <= segments_size(segments, m),
    decreases m,
{
    if m > 0 {
        if n < m {
            lemma_segments_size_monotone(segments, n, (m - 1) as nat);
        } else {
            lemma_segments_size_monotone(segments, (n - 1) as nat, (m - 1) as nat);
        }
        let p = segments[m - 1].phdr;
        assert(0 <= p.filesz % p.p_align < p.p_align);
    }
}

/// The room that `segments` take when each is padded to its alignment.
pub fn get_segments_size(segments: &Vec<Segment>) -> (t: u64)
    requires
        forall|i: int| 0 <= i < segments@.len() ==> (#[trigger] segments@[i]).phdr.p_align != 0,
        segments_size(segments_view(segments@), segments@.len()) <= u64::MAX,
    ensures
        t == segments_size(segments_view(segments@), segments@.len()),
{
    let mut t: u64 = 0;
    let mut i: usize = 0;
    while i < segments.len()
        invariant
            i <= segments.len(),
            forall|k: int| 0 <= k < segments@.len() ==> (#[trigger] segments@[k]).phdr.p_align != 0,
            segments_size(segments_view(segments@), segments@.len()) <= u64::MAX,
            t == segments_size(segments_view(segments@), i as nat),
        decreases segments.len() - i,
    {
        proof {
            lemma_segments_size_monotone(
                segments_view(segments@),
                (i + 1) as nat,
                segments@.len(),
            );
            lemma_segments_size_monotone(segments_view(segments@), i as nat, (i + 1) as nat);
        }
        let p = &segments[i].phdr;
        assert(0 <= p.filesz % p.p_align < p.p_align);
        t = t + p.filesz + (p.p_align - p.filesz % p.p_align);
        i += 1;
    }
    t
}

/// The size of the program-header table of `segments`.
pub fn phdrs_size(segments: &Vec<Segment>) -> (n: usize)
    requires
        0x38 * segments@.len() <= usize::MAX,
    ensures
        n == 0x38 * segments@.len(),
{
    0x38 * segments.len()
}

} // verus!
