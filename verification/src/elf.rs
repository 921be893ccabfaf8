//! A parsed ELF image: the headers, the block tree, and the bytes it was
//! read from; how to read one and how to write one out.

use crate::block::{
    blocks_view, flat_all, flatten_blocks, generate_section_headers, spec_generate_section_headers,
    Block, BlockView,
};
use crate::builder::{build_tree, into_blocks_ok, spec_into_blocks};
use crate::header::{
    elf_magic, hdr_shstrndx, is_elf, spec_header, spec_header_bytes, spec_header_error,
    spec_is_elf, Elf_header, Elf_headerView,
};
use crate::phdr::{parse_program_header, spec_program_headers, ProgramHeader};
use crate::shdr::{
    parse_section_header, shdrs_view, spec_section_headers, SectionHeader, SectionHeaderView,
};
use crate::ParsingError;
use vstd::prelude::*;

verus! {

/// A parsed ELF image.
///
/// `raw` holds the bytes that the image was read from; the editor zeroes
/// parts of them. `blocks` is the block tree, from which the image is
/// written out.
#[derive(Debug)]
pub struct Elf {
    pub header: Elf_header,
    pub phdrs: Vec<ProgramHeader>,
    pub shdrs: Vec<SectionHeader>,
    pub raw: Vec<u8>,
    pub blocks: Vec<Block>,
}

/// What a parsed ELF image holds, as mathematical values.
pub struct ElfView {
    pub header: Elf_headerView,
    pub phdrs: Seq<ProgramHeader>,
    pub shdrs: Seq<SectionHeaderView>,
    pub raw: Seq<u8>,
    pub blocks: Seq<BlockView>,
}

impl View for Elf {
    type V = ElfView;

    open spec fn view(&self) -> ElfView {
        ElfView {
            header: self.header@,
            phdrs: self.phdrs@,
            shdrs: shdrs_view(self.shdrs@),
            raw: self.raw@,
            blocks: blocks_view(self.blocks@),
        }
    }
}

/// Why `bin` cannot be parsed, if it cannot: it does not start with the
/// magic number; or it does and then its file header cannot be read, for
/// being too short or of another class or byte order, or a header table
/// cannot be read, or the block tree cannot be built.
pub open spec fn spec_parse_error(bin: Seq<u8>) -> Option<ParsingError> {
    if !spec_is_elf(bin) {
        Some(ParsingError::NotElf)
    } else if spec_header_error(bin) is Some || !into_blocks_ok(bin) {
        Some(ParsingError::ParsingError)
    } else {
        None
    }
}

/// What parsing `bin` gives.
pub open spec fn spec_parse(bin: Seq<u8>) -> ElfView {
    ElfView {
        header: spec_header(bin),
        phdrs: spec_program_headers(bin),
        shdrs: spec_section_headers(bin, hdr_shstrndx(bin)),
        raw: bin,
        blocks: spec_into_blocks(bin),
    }
}

/// Parsing fails with `NotElf` on exactly the inputs that do not start with
/// the four bytes of the magic number.
pub proof fn lemma_not_elf_iff_magic_missing(bin: Seq<u8>)
    ensures
        spec_parse_error(bin) == Some(ParsingError::NotElf) <==> !spec_is_elf(bin),
        spec_is_elf(bin) <==> bin.len() >= 4 && bin.subrange(0, 4) == elf_magic(),
{
    if bin.len() >= 4 {
        if spec_is_elf(bin) {
            assert(bin.subrange(0, 4) =~= elf_magic());
        } else {
            assert(bin.subrange(0, 4)[0] == bin[0]);
            assert(bin.subrange(0, 4)[1] == bin[1]);
            assert(bin.subrange(0, 4)[2] == bin[2]);
            assert(bin.subrange(0, 4)[3] == bin[3]);
        }
    }
}

/// The bytes of the first `n` headers of `table`, one after the other.
pub open spec fn table_bytes(table: Seq<SectionHeaderView>, n: nat) -> Seq<u8>
    decreases n,
{
    if n == 0 || n > table.len() {
        Seq::empty()
    } else {
        table_bytes(table, (n - 1) as nat) + table[n - 1].spec_to_le_offset(0)
    }
}

/// Whether the header `h` has no section-header table to speak of: the
/// place of the table, the number and the width of its entries and the
/// index of the section that names the sections are all 0. This is how
/// removing the section headers leaves a header.
pub open spec fn section_fields_cleared(h: Elf_headerView) -> bool {
    h.shdr_offset == 0 && h.shdr_num == 0 && h.shdr_size == 0 && h.shstrndx == 0
}

/// The section-header table that is written out for `e`: none where the
/// header of `e` has no section-header table to speak of, else the table
/// made from the block tree.
pub open spec fn emitted_table(e: ElfView) -> Seq<SectionHeaderView> {
    if section_fields_cleared(e.header) {
        Seq::empty()
    } else {
        spec_generate_section_headers(e.blocks, 0)
    }
}

/// The header that is written out for `e`: that of `e` as it stands where
/// it has no section-header table to speak of; else that of `e` with the
/// section-header table placed behind the bytes of the block tree and
/// counted anew. The count is cut to 16 bits.
pub open spec fn emitted_header(e: ElfView) -> Elf_headerView {
    if section_fields_cleared(e.header) {
        e.header
    } else {
        Elf_headerView {
            shdr_offset: flat_all(e.blocks).len() as u64,
            shdr_num: emitted_table(e).len() as u16,
            ..e.header
        }
    }
}

/// The bytes that come behind the file header when `e` is written out: the
/// bytes of the block tree, then the section-header table that is written
/// out, less the first 64 of them, whose place the file header takes.
pub open spec fn emitted_body(e: ElfView) -> Seq<u8> {
    let table = emitted_table(e);
    let body = flat_all(e.blocks) + table_bytes(table, table.len());
    if body.len() <= 0x40 {
        Seq::empty()
    } else {
        body.skip(0x40)
    }
}

/// The file image that `e` is written out as.
pub open spec fn spec_to_le(e: ElfView) -> Seq<u8> {
    spec_header_bytes(emitted_header(e)) + emitted_body(e)
}

impl Elf {
    /// Parses an ELF image.
    ///
    /// Fails with `NotElf` exactly when `bin` does not start with the magic
    /// number, and with `ParsingError` when it does but the file header, a
    /// header table or the block tree cannot be read from it. An input that
    /// has the magic number and is shorter than a file header is of the
    /// second kind, though the header decoder alone calls it `NotElf`.
    pub fn parse(bin: Vec<u8>) -> (r: Result<Elf, ParsingError>)
        ensures
            match r {
                Ok(elf) => spec_parse_error(bin@) is None && elf@ == spec_parse(bin@),
                Err(e) => spec_parse_error(bin@) == Some(e),
            },
    {
        if !is_elf(&bin) {
            return Err(ParsingError::NotElf);
        }
        let header = match Elf_header::parse(&bin) {
            Ok(h) => h,
            Err(_) => {
                return Err(ParsingError::ParsingError);
            },
        };
        let program_hdrs = match parse_program_header(&bin) {
            Ok(p) => p,
            Err(e) => {
                return Err(e);
            },
        };
        let section_hdrs = match parse_section_header(&bin, header.shstrndx) {
            Ok(s) => s,
            Err(e) => {
                return Err(e);
            },
        };
        let blocks = match build_tree(&program_hdrs, &section_hdrs, &bin) {
            Ok(b) => b,
            Err(e) => {
                return Err(e);
            },
        };
        Ok(Elf { header, phdrs: program_hdrs, shdrs: section_hdrs, raw: bin, blocks })
    }

    /// Writes the image out: the bytes of the block tree, then the
    /// section-header table made from the tree, with the file header laid
    /// over the first 64 bytes. The header says where that table starts and
    /// how many entries it has; every other field of it is written as it
    /// stands, the width of a table entry and the place and number of the
    /// program headers among them. The program-header table itself is
    /// written only as far as the bytes of the tree hold it.
    ///
    /// Where the header has no section-header table to speak of (its
    /// place, the number and width of its entries and the index of the
    /// name section are all 0, as they are once the section headers were
    /// removed), none is made: the header is written as it stands and
    /// nothing follows the bytes of the tree.
    pub fn to_le(self) -> (bin: Vec<u8>)
        ensures
            bin@ == spec_to_le(self@),
    {
        let mut body: Vec<u8> = Vec::new();
        flatten_blocks(&self.blocks, &mut body);
        assert(body@ =~= flat_all(self@.blocks));
        let flat_len = body.len();
        let mut header = self.header;
        let cleared = header.shdr_offset == 0 && header.shdr_num == 0 && header.shdr_size == 0
            && header.shstrndx == 0;
        let table = if cleared {
            Vec::new()
        } else {
            generate_section_headers(&self.blocks, 0)
        };
        assert(shdrs_view(table@) =~= emitted_table(self@));
        if !cleared {
            header.shdr_offset = flat_len as u64;
            header.shdr_num = #[verifier::truncate]
            (table.len() as u16);
        }
        assert(header@ == emitted_header(self@));
        let mut i: usize = 0;
        while i < table.len()
            invariant
                i <= table.len(),
                body@ == flat_all(self@.blocks) + table_bytes(shdrs_view(table@), i as nat),
            decreases table.len() - i,
        {
            let mut entry = table[i].to_le();
            body.append(&mut entry);
            assert(body@ =~= flat_all(self@.blocks) + table_bytes(
                shdrs_view(table@),
                (i + 1) as nat,
            ));
            i += 1;
        }
        let mut bin = header.to_le();
        let mut k: usize = 0x40;
        while k < body.len()
            invariant
                0x40 <= k,
                k <= body.len() || body.len() < 0x40,
                body.len() > 0x40 ==> bin@ == spec_header_bytes(header@) + body@.subrange(
                    0x40,
                    k as int,
                ),
                body.len() <= 0x40 ==> bin@ == spec_header_bytes(header@),
            decreases body.len() - k,
        {
            bin.push(body[k]);
            assert(bin@ =~= spec_header_bytes(header@) + body@.subrange(0x40, k + 1));
            k += 1;
        }
        assert(bin@ =~= spec_to_le(self@));
        bin
    }
}

} // verus!
