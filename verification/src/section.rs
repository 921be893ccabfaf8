//! A section of the block tree: a header and the bytes it describes.

use crate::shdr::{SectionHeader, SectionHeaderView};
use vstd::prelude::*;

verus! {

/// A section placed in the block tree. The offset in `hdr` counts from the
/// start of the segment that holds the section.
#[derive(Debug)]
pub struct Section {
    pub hdr: SectionHeader,
    pub content: Vec<u8>,
}

/// What a section holds, as mathematical values.
pub struct SectionView {
    pub hdr: SectionHeaderView,
    pub content: Seq<u8>,
}

impl View for Section {
    type V = SectionView;

    open spec fn view(&self) -> SectionView {
        SectionView { hdr: self.hdr@, content: self.content@ }
    }
}

impl Clone for Section {
    fn clone(&self) -> (r: Section)
        ensures
            r@ == self@,
    {
        Section::from(self.hdr.clone(), &self.content)
    }
}

impl Section {
    /// A section with the given header and a copy of `bin` as its bytes.
    pub fn from(hdr: SectionHeader, bin: &Vec<u8>) -> (sec: Section)
        ensures
            sec@ == (SectionView { hdr: hdr@, content: bin@ }),
    {
        let mut content: Vec<u8> = Vec::new();
        crate::block::extend_bytes(&mut content, bin);
        assert(content@ =~= bin@);
        Section { hdr, content }
    }

    /// The bytes of the section.
    pub fn to_le(self) -> (bin: Vec<u8>)
        ensures
            bin@ == self@.content,
    {
        self.content
    }
}

} // verus!
