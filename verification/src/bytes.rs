//! Little-endian integers: their value as a function of the bytes, the
//! bytes as a function of the value, and the executable readers and writers.

use vstd::prelude::*;

verus! {

/// The value of the first two bytes of `b`, least significant byte first.
pub open spec fn le_u16(b: Seq<u8>) -> u16
    recommends
        b.len() >= 2,
{
    (b[0] as int + 0x100 * b[1] as int) as u16
}

/// The value of the first four bytes of `b`, least significant byte first.
pub open spec fn le_u32(b: Seq<u8>) -> u32
    recommends
        b.len() >= 4,
{
    (b[0] as int + 0x100 * b[1] as int + 0x1_0000 * b[2] as int + 0x100_0000 * b[3] as int) as u32
}

/// The value of the first eight bytes of `b`, least significant byte first.
pub open spec fn le_u64(b: Seq<u8>) -> u64
    recommends
        b.len() >= 8,
{
    (b[0] as int + 0x100 * b[1] as int + 0x1_0000 * b[2] as int + 0x100_0000 * b[3] as int
        + 0x1_0000_0000 * b[4] as int + 0x100_0000_0000 * b[5] as int + 0x1_0000_0000_0000
        * b[6] as int + 0x100_0000_0000_0000 * b[7] as int) as u64
}

/// The two bytes that hold `x`, least significant byte first.
#[verifier::opaque]
pub open spec fn u16_le_bytes(x: u16) -> Seq<u8> {
    seq![(x % 0x100) as u8, (x / 0x100) as u8]
}

/// The four bytes that hold `x`, least significant byte first.
#[verifier::opaque]
pub open spec fn u32_le_bytes(x: u32) -> Seq<u8> {
    seq![
        (x % 0x100) as u8,
        (x / 0x100 % 0x100) as u8,
        (x / 0x1_0000 % 0x100) as u8,
        (x / 0x100_0000) as u8,
    ]
}

/// The eight bytes that hold `x`, least significant byte first.
#[verifier::opaque]
pub open spec fn u64_le_bytes(x: u64) -> Seq<u8> {
    seq![
        (x % 0x100) as u8,
        (x / 0x100 % 0x100) as u8,
        (x / 0x1_0000 % 0x100) as u8,
        (x / 0x100_0000 % 0x100) as u8,
        (x / 0x1_0000_0000 % 0x100) as u8,
        (x / 0x100_0000_0000 % 0x100) as u8,
        (x / 0x1_0000_0000_0000 % 0x100) as u8,
        (x / 0x100_0000_0000_0000) as u8,
    ]
}

/// Reading back the bytes written for a 16-bit value gives the value.
pub proof fn lemma_le_u16_round_trip(x: u16)
    ensures
        u16_le_bytes(x).len() == 2,
        le_u16(u16_le_bytes(x)) == x,
{
    reveal(u16_le_bytes);
}

/// Reading back the bytes written for a 32-bit value gives the value.
pub proof fn lemma_le_u32_round_trip(x: u32)
    ensures
        u32_le_bytes(x).len() == 4,
        le_u32(u32_le_bytes(x)) == x,
{
    reveal(u32_le_bytes);
}

/// Reading back the bytes written for a 64-bit value gives the value.
pub proof fn lemma_le_u64_round_trip(x: u64)
    ensures
        u64_le_bytes(x).len() == 8,
        le_u64(u64_le_bytes(x)) == x,
{
    reveal(u64_le_bytes);
    let q1 = x / 0x100;
    let q2 = q1 / 0x100;
    let q3 = q2 / 0x100;
    let q4 = q3 / 0x100;
    let q5 = q4 / 0x100;
    let q6 = q5 / 0x100;
    let q7 = q6 / 0x100;
    assert(q2 == x / 0x1_0000);
    assert(q3 == x / 0x100_0000);
    assert(q4 == x / 0x1_0000_0000);
    assert(q5 == x / 0x100_0000_0000);
    assert(q6 == x / 0x1_0000_0000_0000);
    assert(q7 == x / 0x100_0000_0000_0000);
    assert(q7 < 0x100);
}

/// Whether `whole` starts with the bytes `pre`.
pub open spec fn starts_with(whole: Seq<u8>, pre: Seq<u8>) -> bool {
    pre.len() <= whole.len() && whole.subrange(0, pre.len() as int) == pre
}

/// A sequence starts with itself.
pub proof fn lemma_starts_with_itself(whole: Seq<u8>)
    ensures
        starts_with(whole, whole),
{
    assert(whole.subrange(0, whole.len() as int) =~= whole);
}

/// What starts with `pre` followed by `piece` starts with `pre` and has
/// `piece` right behind it.
pub proof fn lemma_starts_with_step(whole: Seq<u8>, pre: Seq<u8>, piece: Seq<u8>)
    requires
        starts_with(whole, pre + piece),
    ensures
        starts_with(whole, pre),
        whole.subrange(pre.len() as int, (pre.len() + piece.len()) as int) == piece,
{
    let both = pre + piece;
    assert(whole.subrange(0, pre.len() as int) =~= both.subrange(0, pre.len() as int));
    assert(both.subrange(0, pre.len() as int) =~= pre);
    assert(whole.subrange(pre.len() as int, (pre.len() + piece.len()) as int) =~= both.subrange(
        pre.len() as int,
        (pre.len() + piece.len()) as int,
    ));
    assert(both.subrange(pre.len() as int, (pre.len() + piece.len()) as int) =~= piece);
}

/// A stretch of the front part of two sequences put together is that
/// stretch of the front part.
pub proof fn lemma_front_subrange(front: Seq<u8>, rest: Seq<u8>, from: int, to: int)
    requires
        0 <= from <= to <= front.len(),
    ensures
        (front + rest).subrange(from, to) == front.subrange(from, to),
{
    assert((front + rest).subrange(from, to) =~= front.subrange(from, to));
}

/// Where a table of `num` entries of `size` bytes each, starting at `off`,
/// ends by position `len`, entry `i` of it does too.
pub proof fn lemma_table_entry(off: int, size: int, i: int, num: int, len: int)
    requires
        0 <= off,
        0 <= size,
        0 <= i < num,
        off + num * size <= len,
    ensures
        0 <= i * size,
        i * size == size * i,
        num * size == size * num,
        (i + 1) * size == i * size + size,
        off + (i + 1) * size <= len,
        num * size >= size,
{
    assert(0 <= i * size && i * size == size * i && num * size == size * num && (i + 1) * size
        == i * size + size && (i + 1) * size <= num * size && num * size >= size)
        by (nonlinear_arith)
        requires
            0 <= size,
            0 <= i < num,
    ;
}

/// The first four bytes written for a 64-bit value read back as its low
/// 32 bits.
pub proof fn lemma_le_u64_low_half(x: u64)
    ensures
        le_u32(u64_le_bytes(x)) == x % 0x1_0000_0000,
{
    reveal(u64_le_bytes);
    let q1 = x / 0x100;
    let q2 = q1 / 0x100;
    let q3 = q2 / 0x100;
    let q4 = q3 / 0x100;
    assert(q2 == x / 0x1_0000);
    assert(q3 == x / 0x100_0000);
    assert(q4 == x / 0x1_0000_0000);
}

/// `byteorder::LittleEndian::read_u16`: the first two bytes of `buf` taken
/// as a little-endian integer. The outside function panics on a shorter
/// buffer, which the precondition rules out.
#[verifier::external_body]
pub(crate) fn read_u16(buf: &[u8]) -> (r: u16)
    requires
        buf@.len() >= 2,
    ensures
        r == le_u16(buf@),
{
    <byteorder::LittleEndian as byteorder::ByteOrder>::read_u16(buf)
}

/// `byteorder::LittleEndian::read_u32`: the first four bytes of `buf` taken
/// as a little-endian integer. The outside function panics on a shorter
/// buffer, which the precondition rules out.
#[verifier::external_body]
pub(crate) fn read_u32(buf: &[u8]) -> (r: u32)
    requires
        buf@.len() >= 4,
    ensures
        r == le_u32(buf@),
{
    <byteorder::LittleEndian as byteorder::ByteOrder>::read_u32(buf)
}

/// `byteorder::LittleEndian::read_u64`: the first eight bytes of `buf` taken
/// as a little-endian integer. The outside function panics on a shorter
/// buffer, which the precondition rules out.
#[verifier::external_body]
pub(crate) fn read_u64(buf: &[u8]) -> (r: u64)
    requires
        buf@.len() >= 8,
    ensures
        r == le_u64(buf@),
{
    <byteorder::LittleEndian as byteorder::ByteOrder>::read_u64(buf)
}

/// Appends the little-endian bytes of `x` to `bin`.
pub fn push_u16(bin: &mut Vec<u8>, x: u16)
    ensures
        final(bin)@ == old(bin)@ + u16_le_bytes(x),
        final(bin)@.len() == old(bin)@.len() + 2,
{
    reveal(u16_le_bytes);
    bin.push((x % 0x100) as u8);
    bin.push((x / 0x100) as u8);
    assert(bin@ =~= old(bin)@ + u16_le_bytes(x));
}

/// Appends the little-endian bytes of `x` to `bin`.
pub fn push_u32(bin: &mut Vec<u8>, x: u32)
    ensures
        final(bin)@ == old(bin)@ + u32_le_bytes(x),
        final(bin)@.len() == old(bin)@.len() + 4,
{
    reveal(u32_le_bytes);
    bin.push((x % 0x100) as u8);
    bin.push((x / 0x100 % 0x100) as u8);
    bin.push((x / 0x1_0000 % 0x100) as u8);
    bin.push((x / 0x100_0000) as u8);
    assert(bin@ =~= old(bin)@ + u32_le_bytes(x));
}

/// Appends the little-endian bytes of `x` to `bin`.
pub fn push_u64(bin: &mut Vec<u8>, x: u64)
    ensures
        final(bin)@ == old(bin)@ + u64_le_bytes(x),
        final(bin)@.len() == old(bin)@.len() + 8,
{
    reveal(u64_le_bytes);
    bin.push((x % 0x100) as u8);
    bin.push((x / 0x100 % 0x100) as u8);
    bin.push((x / 0x1_0000 % 0x100) as u8);
    bin.push((x / 0x100_0000 % 0x100) as u8);
    bin.push((x / 0x1_0000_0000 % 0x100) as u8);
    bin.push((x / 0x100_0000_0000 % 0x100) as u8);
    bin.push((x / 0x1_0000_0000_0000 % 0x100) as u8);
    bin.push((x / 0x100_0000_0000_0000) as u8);
    assert(bin@ =~= old(bin)@ + u64_le_bytes(x));
}

} // verus!
