//! Parsing, structural editing and re-serialisation of 64-bit little-endian
//! ELF files.
//!
//! The crate reconciles the two views an ELF file offers of itself, the
//! program headers (segments) and the section headers (sections), into one
//! tree of blocks, and writes that tree back out as a file image.
#![allow(non_camel_case_types)]

pub mod bytes;
pub mod block;
pub mod builder;
pub mod census;
pub mod coverage;
pub mod editor;
pub mod elf;
pub mod header;
pub mod layout;
pub mod narrowest;
pub mod order;
pub mod phdr;
pub mod placement;
pub mod roundtrip;
pub mod section;
pub mod segment;
pub mod shape;
pub mod shdr;

pub use crate::elf::Elf;
pub use crate::header::{Elf_abi, Elf_arch, Elf_class, Elf_endiannes, Elf_header, Elf_type};
use vstd::prelude::*;

verus! {

/// The two ways in which reading an ELF image can fail.
#[derive(Debug, Clone, Copy, PartialEq, Eq, Structural)]
pub enum ParsingError {
    /// The input does not start with the ELF magic number.
    NotElf,
    /// The input starts like an ELF image but is malformed further on.
    ParsingError,
}

} // verus!
