//! Edits of a parsed ELF image: taking out the section-header table, and
//! taking out program headers by kind.
//!
//! Neither edit moves anything: what is taken out leaves a hole, and the
//! offsets of what stays are as they were.

use crate::block::flat_all;
use crate::bytes::{lemma_front_subrange, lemma_le_u16_round_trip, lemma_le_u64_round_trip};
use crate::elf::{
    emitted_body, emitted_table, section_fields_cleared, spec_to_le, table_bytes, Elf, ElfView,
};
use crate::header::{
    hdr_shdr_num, hdr_shdr_offset, hdr_shdr_size, hdr_shstrndx, lemma_header_bytes_layout,
    spec_header_bytes, Elf_headerView,
};
use crate::phdr::{Phdr_type, ProgramHeader};
use vstd::prelude::*;

verus! {

/// Whether position `i` of the file lies in the section-header table that
/// the header `h` describes.
pub open spec fn in_shdr_table(h: Elf_headerView, i: int) -> bool {
    h.shdr_offset <= i < h.shdr_offset + h.shdr_num * h.shdr_size
}

/// The bytes `raw` with those of the section-header table that `h`
/// describes set to zero.
pub open spec fn zeroed_shdr_table(h: Elf_headerView, raw: Seq<u8>) -> Seq<u8> {
    Seq::new(
        raw.len(),
        |i: int|
            if in_shdr_table(h, i) {
                0u8
            } else {
                raw[i]
            },
    )
}

/// The header `h` with every field that speaks of the section-header table
/// set to zero.
pub open spec fn without_shdr_fields(h: Elf_headerView) -> Elf_headerView {
    Elf_headerView { shdr_offset: 0, shdr_num: 0, shdr_size: 0, shstrndx: 0, ..h }
}

/// The image `e` without its section-header table: the bytes of the table
/// are zero and the header no longer speaks of it. The block tree and the
/// parsed headers stay as they are.
pub open spec fn spec_remove_shdrs(e: ElfView) -> ElfView {
    ElfView {
        header: without_shdr_fields(e.header),
        raw: zeroed_shdr_table(e.header, e.raw),
        ..e
    }
}

/// Removes the section-header table from the image: sets its bytes in `raw`
/// to zero, as far as they lie in `raw`, and clears the fields of the file
/// header that speak of it.
pub fn remove_shdrs(elf: &mut Elf)
    ensures
        final(elf)@ == spec_remove_shdrs(old(elf)@),
{
    let ghost h = elf.header@;
    let ghost raw = elf.raw@;
    let len = elf.raw.len();
    let shdrt_start = elf.header.shdr_offset;
    assert((elf.header.shdr_num as int) * (elf.header.shdr_size as int) <= 0xFFFF * 0xFFFF)
        by (nonlinear_arith)
        requires
            0 <= elf.header.shdr_num <= 0xFFFF,
            0 <= elf.header.shdr_size <= 0xFFFF,
    ;
    let shdrt_size: u64 = (elf.header.shdr_num as u64) * (elf.header.shdr_size as u64);
    if shdrt_start < len as u64 {
        let first = shdrt_start as usize;
        let last = if shdrt_size > (len - first) as u64 {
            len
        } else {
            first + shdrt_size as usize
        };
        let mut i: usize = first;
        while i < last
            invariant
                first <= i <= last <= len,
                first == h.shdr_offset,
                last == if h.shdr_offset + h.shdr_num * h.shdr_size > len {
                    len as int
                } else {
                    h.shdr_offset + h.shdr_num * h.shdr_size
                },
                elf.raw@.len() == len,
                raw.len() == len,
                forall|k: int| 0 <= k < first ==> #[trigger] elf.raw@[k] == raw[k],
                forall|k: int| first <= k < i ==> #[trigger] elf.raw@[k] == 0,
                forall|k: int| i <= k < len ==> #[trigger] elf.raw@[k] == raw[k],
                elf.header == old(elf).header,
                elf.phdrs == old(elf).phdrs,
                elf.shdrs == old(elf).shdrs,
                elf.blocks == old(elf).blocks,
            decreases last - i,
        {
            elf.raw[i] = 0;
            i += 1;
        }
    }
    assert(elf.raw@ =~= zeroed_shdr_table(h, raw));
    elf.header.shdr_offset = 0x0;
    elf.header.shdr_num = 0x0;
    elf.header.shdr_size = 0x0;
    elf.header.shstrndx = 0x0;
}

/// Removing the section-header table a second time changes nothing.
pub proof fn lemma_remove_shdrs_idempotent(e: ElfView)
    ensures
        spec_remove_shdrs(spec_remove_shdrs(e)) == spec_remove_shdrs(e),
{
    let once = spec_remove_shdrs(e);
    assert(zeroed_shdr_table(once.header, once.raw) =~= once.raw);
}

/// The image written out once the section headers were removed has no
/// section-header table: its header gives 0 for the place of the table,
/// for the number and the width of its entries and for the index of the
/// name section, and behind the header stand the bytes of the block tree
/// and nothing else.
pub proof fn lemma_written_without_section_headers(e: ElfView)
    requires
        e.header.e_ident.len() == 4,
        e.header.e_padding.len() == 7,
    ensures
        hdr_shdr_offset(spec_to_le(spec_remove_shdrs(e))) == 0,
        hdr_shdr_num(spec_to_le(spec_remove_shdrs(e))) == 0,
        hdr_shdr_size(spec_to_le(spec_remove_shdrs(e))) == 0,
        hdr_shstrndx(spec_to_le(spec_remove_shdrs(e))) == 0,
        spec_to_le(spec_remove_shdrs(e)) == spec_header_bytes(without_shdr_fields(e.header)) + (
        if flat_all(e.blocks).len() <= 0x40 {
            Seq::empty()
        } else {
            flat_all(e.blocks).skip(0x40)
        }),
{
    let r = spec_remove_shdrs(e);
    let h = without_shdr_fields(e.header);
    let hb = spec_header_bytes(h);
    let out = spec_to_le(r);
    assert(section_fields_cleared(r.header));
    assert(emitted_table(r) =~= Seq::<crate::shdr::SectionHeaderView>::empty());
    assert(flat_all(r.blocks) + table_bytes(emitted_table(r), 0) =~= flat_all(e.blocks));
    assert(out == hb + emitted_body(r));
    lemma_header_bytes_layout(h);
    lemma_front_subrange(hb, emitted_body(r), 0x28, 0x30);
    lemma_front_subrange(hb, emitted_body(r), 0x3A, 0x3C);
    lemma_front_subrange(hb, emitted_body(r), 0x3C, 0x3E);
    lemma_front_subrange(hb, emitted_body(r), 0x3E, 0x40);
    lemma_le_u64_round_trip(0);
    lemma_le_u16_round_trip(0);
}

/// Those of the first `n` of `phdrs` whose flag in `keep` is set, in order.
pub open spec fn retained(phdrs: Seq<ProgramHeader>, keep: Seq<bool>, n: nat) -> Seq<ProgramHeader>
    decreases n,
{
    if n == 0 || n > phdrs.len() || n > keep.len() {
        Seq::empty()
    } else if keep[n - 1] {
        retained(phdrs, keep, (n - 1) as nat).push(phdrs[n - 1])
    } else {
        retained(phdrs, keep, (n - 1) as nat)
    }
}

/// Whether `keep` holds, for each of `phdrs`, an answer that `pred` may
/// give for its kind.
pub open spec fn answers_of<F: Fn(Phdr_type) -> bool>(
    pred: F,
    phdrs: Seq<ProgramHeader>,
    keep: Seq<bool>,
) -> bool {
    keep.len() == phdrs.len() && forall|i: int|
        0 <= i < phdrs.len() ==> call_ensures(pred, (#[trigger] phdrs[i].p_type,), keep[i])
}

/// Whether `p` is one of the first `n` of `phdrs` whose flag in `keep` is set.
pub open spec fn is_flagged(phdrs: Seq<ProgramHeader>, keep: Seq<bool>, n: nat, p: ProgramHeader) -> bool {
    exists|i: int| 0 <= i < n && #[trigger] keep[i] && phdrs[i] == p
}

/// Every header that is retained is one of those given whose flag is set,
/// and no more are retained than are given.
pub proof fn lemma_retained(phdrs: Seq<ProgramHeader>, keep: Seq<bool>, n: nat)
    requires
        n <= phdrs.len(),
        n <= keep.len(),
    ensures
        retained(phdrs, keep, n).len() <= n,
        forall|j: int|
            0 <= j < retained(phdrs, keep, n).len() ==> is_flagged(
                phdrs,
                keep,
                n,
                #[trigger] retained(phdrs, keep, n)[j],
            ),
    decreases n,
{
    if n > 0 {
        lemma_retained(phdrs, keep, (n - 1) as nat);
        let prev = retained(phdrs, keep, (n - 1) as nat);
        let cur = retained(phdrs, keep, n);
        assert forall|j: int| 0 <= j < cur.len() implies is_flagged(
            phdrs,
            keep,
            n,
            #[trigger] cur[j],
        ) by {
            if j < prev.len() {
                assert(cur[j] == prev[j]);
                assert(is_flagged(phdrs, keep, (n - 1) as nat, prev[j]));
                let i = choose|i: int| 0 <= i < n - 1 && #[trigger] keep[i] && phdrs[i] == prev[j];
                assert(0 <= i < n && keep[i] && phdrs[i] == cur[j]);
            } else {
                assert(keep[n - 1] && phdrs[n - 1] == cur[j]);
            }
        }
    }
}

/// Keeps the program headers for whose kind `pred` answers `true`, in
/// their order, and sets the header count of the file header to their
/// number, cut to 16 bits. Nothing else changes: the bytes and the block
/// tree still hold what was removed.
pub fn remove_phdrs_by_type<F: Fn(Phdr_type) -> bool>(elf: &mut Elf, pred: F)
    requires
        forall|t: Phdr_type| call_requires(pred, (t,)),
    ensures
        exists|keep: Seq<bool>| #[trigger]
            answers_of(pred, old(elf).phdrs@, keep) && final(elf).phdrs@ == retained(
                old(elf).phdrs@,
                keep,
                old(elf).phdrs@.len(),
            ),
        forall|j: int|
            0 <= j < final(elf).phdrs@.len() ==> call_ensures(
                pred,
                (#[trigger] final(elf).phdrs@[j].p_type,),
                true,
            ),
        final(elf).phdrs@.len() <= old(elf).phdrs@.len(),
        final(elf).header@ == (Elf_headerView {
            phdr_num: final(elf).phdrs@.len() as u16,
            ..old(elf).header@
        }),
        final(elf).phdrs@.len() <= 0xFFFF ==> final(elf).header.phdr_num == final(elf).phdrs@.len(),
        final(elf).shdrs == old(elf).shdrs,
        final(elf).raw == old(elf).raw,
        final(elf).blocks == old(elf).blocks,
{
    let ghost orig = elf.phdrs@;
    let mut kept: Vec<ProgramHeader> = Vec::new();
    let ghost mut keep: Seq<bool> = Seq::empty();
    let mut i: usize = 0;
    while i < elf.phdrs.len()
        invariant
            i <= elf.phdrs.len(),
            elf.phdrs@ == orig,
            *elf == *old(elf),
            forall|t: Phdr_type| call_requires(pred, (t,)),
            keep.len() == i,
            forall|k: int| 0 <= k < i ==> call_ensures(pred, (#[trigger] orig[k].p_type,), keep[k]),
            kept@ == retained(orig, keep, i as nat),
            kept@.len() <= i,
            forall|j: int|
                0 <= j < kept@.len() ==> call_ensures(pred, (#[trigger] kept@[j].p_type,), true),
        decreases elf.phdrs.len() - i,
    {
        let phdr = elf.phdrs[i];
        let answer = pred(phdr.p_type);
        let ghost prev = keep;
        proof {
            keep = keep.push(answer);
            lemma_retained_ignores_tail(orig, prev, keep, i as nat);
        }
        if answer {
            kept.push(phdr);
        }
        i += 1;
    }
    assert(answers_of(pred, orig, keep));
    elf.header.phdr_num = #[verifier::truncate]
    (kept.len() as u16);
    elf.phdrs = kept;
}

/// What is retained of the first `n` headers depends on the first `n`
/// flags only.
pub proof fn lemma_retained_ignores_tail(
    phdrs: Seq<ProgramHeader>,
    keep1: Seq<bool>,
    keep2: Seq<bool>,
    n: nat,
)
    requires
        n <= phdrs.len(),
        n <= keep1.len(),
        n <= keep2.len(),
        forall|i: int| 0 <= i < n ==> keep1[i] == keep2[i],
    ensures
        retained(phdrs, keep1, n) == retained(phdrs, keep2, n),
    decreases n,
{
    if n > 0 {
        lemma_retained_ignores_tail(phdrs, keep1, keep2, (n - 1) as nat);
    }
}

/// Whether a program header of kind `t` survives the removal of the `NOTE`
/// and `NULL` headers.
pub open spec fn is_kept_type(t: Phdr_type) -> bool {
    t != Phdr_type::NOTE && t != Phdr_type::NULL
}

/// For each of `phdrs`, whether it survives the removal of the `NOTE` and
/// `NULL` headers.
pub open spec fn kept_flags(phdrs: Seq<ProgramHeader>) -> Seq<bool> {
    Seq::new(phdrs.len(), |i: int| is_kept_type(phdrs[i].p_type))
}

/// Removes the program headers of kind `NOTE` and `NULL`, keeps the others
/// in their order, and sets the header count of the file header to their
/// number.
pub fn remove_ne_phdrs(elf: &mut Elf)
    ensures
        final(elf).phdrs@ == retained(
            old(elf).phdrs@,
            kept_flags(old(elf).phdrs@),
            old(elf).phdrs@.len(),
        ),
        forall|j: int|
            0 <= j < final(elf).phdrs@.len() ==> is_kept_type(#[trigger] final(elf).phdrs@[j].p_type),
        final(elf).header@ == (Elf_headerView {
            phdr_num: final(elf).phdrs@.len() as u16,
            ..old(elf).header@
        }),
        final(elf).phdrs@.len() <= 0xFFFF ==> final(elf).header.phdr_num == final(elf).phdrs@.len(),
        final(elf).shdrs == old(elf).shdrs,
        final(elf).raw == old(elf).raw,
        final(elf).blocks == old(elf).blocks,
{
    let pred = |t: Phdr_type| -> (r: bool)
        ensures
            r == is_kept_type(t),
        {
            match t {
                Phdr_type::NOTE | Phdr_type::NULL => false,
                _ => true,
            }
        };
    let ghost orig = elf.phdrs@;
    remove_phdrs_by_type(elf, pred);
    proof {
        let keep = choose|keep: Seq<bool>| #[trigger]
            answers_of(pred, orig, keep) && elf.phdrs@ == retained(orig, keep, orig.len());
        assert(keep =~= kept_flags(orig));
    }
}

} // verus!
