//! Little-endian integer layout and the byte-level helpers that the codec,
//! the frame header and the drain format are built from.

use vstd::prelude::*;

verus! {

/// The two bytes of `x`, least significant first.
pub open spec fn le16(x: u16) -> Seq<u8> {
    seq![(x % 0x100) as u8, (x / 0x100) as u8]
}

/// The value of two little-endian bytes.
pub open spec fn le16_value(b: Seq<u8>) -> u16 {
    (b[0] + 0x100 * b[1]) as u16
}

/// The four bytes of `x`, least significant first.
pub open spec fn le32(x: u32) -> Seq<u8> {
    seq![
        (x % 0x100) as u8,
        (x / 0x100 % 0x100) as u8,
        (x / 0x1_0000 % 0x100) as u8,
        (x / 0x100_0000) as u8,
    ]
}

/// The value of four little-endian bytes.
pub open spec fn le32_value(b: Seq<u8>) -> u32 {
    (b[0] + 0x100 * b[1] + 0x1_0000 * b[2] + 0x100_0000 * b[3]) as u32
}

/// The eight bytes of `x`, least significant first.
pub open spec fn le64(x: u64) -> Seq<u8> {
    seq![
        (x % 0x100) as u8,
        (x / 0x100 % 0x100) as u8,
        (x / 0x1_0000 % 0x100) as u8,
        (x / 0x100_0000 % 0x100) as u8,
        (x / 0x1_0000_0000 % 0x100) as u8,
        (x / 0x100_0000_0000 % 0x100) as u8,
        (x / 0x1_0000_0000_0000 % 0x100) as u8,
        (x / 0x100_0000_0000_0000) as u8,
    ]
}

/// The value of eight little-endian bytes.
pub open spec fn le64_value(b: Seq<u8>) -> u64 {
    (b[0] + 0x100 * b[1] + 0x1_0000 * b[2] + 0x100_0000 * b[3] + 0x1_0000_0000 * b[4]
        + 0x100_0000_0000 * b[5] + 0x1_0000_0000_0000 * b[6] + 0x100_0000_0000_0000
        * b[7]) as u64
}

/// Reading back the two bytes of `x` gives `x`.
pub proof fn lemma_le16_roundtrip(x: u16)
    ensures
        le16(x).len() == 2,
        le16_value(le16(x)) == x,
{
}

/// Reading back the four bytes of `x` gives `x`.
pub proof fn lemma_le32_roundtrip(x: u32)
    ensures
        le32(x).len() == 4,
        le32_value(le32(x)) == x,
{
}

/// Reading back the eight bytes of `x` gives `x`.
pub proof fn lemma_le64_roundtrip(x: u64)
    ensures
        le64(x).len() == 8,
        le64_value(le64(x)) == x,
{
    assert(((x % 0x100) as u8) + 0x100 * ((x / 0x100 % 0x100) as u8) + 0x1_0000 * ((x / 0x1_0000
        % 0x100) as u8) + 0x100_0000 * ((x / 0x100_0000 % 0x100) as u8) + 0x1_0000_0000 * ((x
        / 0x1_0000_0000 % 0x100) as u8) + 0x100_0000_0000 * ((x / 0x100_0000_0000 % 0x100) as u8)
        + 0x1_0000_0000_0000 * ((x / 0x1_0000_0000_0000 % 0x100) as u8) + 0x100_0000_0000_0000 * ((x
        / 0x100_0000_0000_0000) as u8) == x) by (bit_vector);
}

/// Appends the little-endian bytes of `x` to `buf`.
pub fn push_u16(buf: &mut Vec<u8>, x: u16)
    ensures
        final(buf)@ == old(buf)@ + le16(x),
{
    buf.push((x % 0x100) as u8);
    buf.push((x / 0x100) as u8);
    assert(buf@ =~= old(buf)@ + le16(x));
}

/// Appends the little-endian bytes of `x` to `buf`.
pub fn push_u32(buf: &mut Vec<u8>, x: u32)
    ensures
        final(buf)@ == old(buf)@ + le32(x),
{
    buf.push((x % 0x100) as u8);
    buf.push((x / 0x100 % 0x100) as u8);
    buf.push((x / 0x1_0000 % 0x100) as u8);
    buf.push((x / 0x100_0000) as u8);
    assert(buf@ =~= old(buf)@ + le32(x));
}

/// Appends the little-endian bytes of `x` to `buf`.
pub fn push_u64(buf: &mut Vec<u8>, x: u64)
    ensures
        final(buf)@ == old(buf)@ + le64(x),
{
    buf.push((x % 0x100) as u8);
    buf.push((x / 0x100 % 0x100) as u8);
    buf.push((x / 0x1_0000 % 0x100) as u8);
    buf.push((x / 0x100_0000 % 0x100) as u8);
    buf.push((x / 0x1_0000_0000 % 0x100) as u8);
    buf.push((x / 0x100_0000_0000 % 0x100) as u8);
    buf.push((x / 0x1_0000_0000_0000 % 0x100) as u8);
    buf.push((x / 0x100_0000_0000_0000) as u8);
    assert(buf@ =~= old(buf)@ + le64(x));
}

/// The little-endian `u16` stored at `at`.
pub fn read_u16(b: &[u8], at: usize) -> (r: u16)
    requires
        at + 2 <= b@.len(),
    ensures
        r == le16_value(b@.subrange(at as int, at + 2)),
{
    b[at] as u16 + 0x100 * (b[at + 1] as u16)
}

/// The little-endian `u32` stored at `at`.
pub fn read_u32(b: &[u8], at: usize) -> (r: u32)
    requires
        at + 4 <= b@.len(),
    ensures
        r == le32_value(b@.subrange(at as int, at + 4)),
{
    b[at] as u32 + 0x100 * (b[at + 1] as u32) + 0x1_0000 * (b[at + 2] as u32) + 0x100_0000 * (
    b[at + 3] as u32)
}

/// The little-endian `u64` stored at `at`.
pub fn read_u64(b: &[u8], at: usize) -> (r: u64)
    requires
        at + 8 <= b@.len(),
    ensures
        r == le64_value(b@.subrange(at as int, at + 8)),
{
    b[at] as u64 + 0x100 * (b[at + 1] as u64) + 0x1_0000 * (b[at + 2] as u64) + 0x100_0000 * (
    b[at + 3] as u64) + 0x1_0000_0000 * (b[at + 4] as u64) + 0x100_0000_0000 * (b[at + 5] as u64)
        + 0x1_0000_0000_0000 * (b[at + 6] as u64) + 0x100_0000_0000_0000 * (b[at + 7] as u64)
}

/// Appends every byte of `src` to `buf`.
pub fn append_bytes(buf: &mut Vec<u8>, src: &[u8])
    ensures
        final(buf)@ == old(buf)@ + src@,
{
    let mut i: usize = 0;
    while i < src.len()
        invariant
            i <= src@.len(),
            buf@ == old(buf)@ + src@.take(i as int),
        decreases src@.len() - i,
    {
        buf.push(src[i]);
        i = i + 1;
        assert(src@.take(i as int) =~= src@.take((i - 1) as int).push(src@[i - 1]));
    }
    assert(src@.take(src@.len() as int) =~= src@);
}

} // verus!
