//! How blocks compare: by the offset in their header, where they have one.

use crate::block::Block;
use std::cmp::Ordering;
use vstd::prelude::*;
use vstd::std_specs::cmp::{PartialEqSpecImpl, PartialOrdSpecImpl};

verus! {

/// The offset in the header of a block: that of a segment or of a section.
/// Raw data and padding have no header.
pub open spec fn header_offset(b: Block) -> Option<u64> {
    match b {
        Block::Segment(s) => Some(s.phdr.offset),
        Block::Section(s) => Some(s.hdr.offset),
        _ => None,
    }
}

/// The offset in the header of a block, where it has a header.
pub fn offset_in_header(b: &Block) -> (r: Option<u64>)
    ensures
        r == header_offset(*b),
{
    match b {
        Block::Segment(s) => Some(s.phdr.offset),
        Block::Section(s) => Some(s.hdr.offset),
        _ => None,
    }
}

impl PartialEq for Block {
    /// Two blocks are equal when both are segments and start at one offset.
    fn eq(&self, other: &Self) -> (r: bool) {
        match (self, other) {
            (Block::Segment(s), Block::Segment(t)) => s.phdr.offset == t.phdr.offset,
            _ => false,
        }
    }
}

impl PartialEqSpecImpl for Block {
    open spec fn obeys_eq_spec() -> bool {
        true
    }

    open spec fn eq_spec(&self, other: &Self) -> bool {
        match (*self, *other) {
            (Block::Segment(s), Block::Segment(t)) => s.phdr.offset == t.phdr.offset,
            _ => false,
        }
    }
}

impl PartialOrd for Block {
    /// Blocks with a header compare as the offsets in their headers do;
    /// raw data and padding compare with nothing.
    fn partial_cmp(&self, blk: &Block) -> (r: Option<Ordering>) {
        let a = match offset_in_header(self) {
            Some(a) => a,
            None => {
                return None;
            },
        };
        let b = match offset_in_header(blk) {
            Some(b) => b,
            None => {
                return None;
            },
        };
        if a < b {
            Some(Ordering::Less)
        } else if a == b {
            Some(Ordering::Equal)
        } else {
            Some(Ordering::Greater)
        }
    }
}

impl PartialOrdSpecImpl for Block {
    open spec fn obeys_partial_cmp_spec() -> bool {
        true
    }

    open spec fn partial_cmp_spec(&self, other: &Self) -> Option<Ordering> {
        match (header_offset(*self), header_offset(*other)) {
            (Some(a), Some(b)) => if a < b {
                Some(Ordering::Less)
            } else if a == b {
                Some(Ordering::Equal)
            } else {
                Some(Ordering::Greater)
            },
            _ => None,
        }
    }
}

} // verus!
