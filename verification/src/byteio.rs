//! Fixed-width integers as byte strings, in both byte orders.
//!
//! The spec functions give the arithmetic meaning of each encoding. The
//! executable conversions are done by the `byteorder` crate; their contracts
//! are trusted.

use vstd::prelude::*;

verus! {

/// The little-endian value of the first four bytes of `s`.
pub open spec fn le_u32(s: Seq<u8>) -> u32
    recommends
        s.len() >= 4,
{
    (s[0] as int + 0x100 * (s[1] as int) + 0x1_0000 * (s[2] as int) + 0x100_0000 * (s[3] as int)) as u32
}

/// The little-endian value of the first eight bytes of `s`.
pub open spec fn le_u64(s: Seq<u8>) -> u64
    recommends
        s.len() >= 8,
{
    (le_u32(s) as int + 0x1_0000_0000 * (le_u32(s.subrange(4, 8)) as int)) as u64
}

/// The four bytes that encode `n`, least significant first.
pub open spec fn le_bytes_u32(n: u32) -> Seq<u8> {
    seq![
        (n % 0x100) as u8,
        (n / 0x100 % 0x100) as u8,
        (n / 0x1_0000 % 0x100) as u8,
        (n / 0x100_0000) as u8,
    ]
}

/// The eight bytes that encode `n`, least significant first.
pub open spec fn le_bytes_u64(n: u64) -> Seq<u8> {
    le_bytes_u32((n % 0x1_0000_0000) as u32) + le_bytes_u32((n / 0x1_0000_0000) as u32)
}

/// The big-endian value of the first two bytes of `s`.
pub open spec fn be_u16(s: Seq<u8>) -> u16
    recommends
        s.len() >= 2,
{
    (0x100 * (s[0] as int) + s[1] as int) as u16
}

/// The big-endian value of the first four bytes of `s`.
pub open spec fn be_u32(s: Seq<u8>) -> u32
    recommends
        s.len() >= 4,
{
    (0x100_0000 * (s[0] as int) + 0x1_0000 * (s[1] as int) + 0x100 * (s[2] as int) + s[3] as int) as u32
}

/// The big-endian value of the first eight bytes of `s`.
pub open spec fn be_u64(s: Seq<u8>) -> u64
    recommends
        s.len() >= 8,
{
    (0x1_0000_0000 * (be_u32(s) as int) + be_u32(s.subrange(4, 8)) as int) as u64
}

/// The two bytes that encode `n`, most significant first.
pub open spec fn be_bytes_u16(n: u16) -> Seq<u8> {
    seq![(n / 0x100) as u8, (n % 0x100) as u8]
}

/// The four bytes that encode `n`, most significant first.
pub open spec fn be_bytes_u32(n: u32) -> Seq<u8> {
    seq![
        (n / 0x100_0000) as u8,
        (n / 0x1_0000 % 0x100) as u8,
        (n / 0x100 % 0x100) as u8,
        (n % 0x100) as u8,
    ]
}

/// The eight bytes that encode `n`, most significant first.
pub open spec fn be_bytes_u64(n: u64) -> Seq<u8> {
    be_bytes_u32((n / 0x1_0000_0000) as u32) + be_bytes_u32((n % 0x1_0000_0000) as u32)
}

/// Decoding undoes encoding, for the 16- and 32-bit encodings.
pub proof fn lemma_decode_encode_u32(a: u16, b: u32)
    ensures
        be_bytes_u16(a).len() == 2,
        be_u16(be_bytes_u16(a)) == a,
        be_bytes_u32(b).len() == 4,
        be_u32(be_bytes_u32(b)) == b,
        le_bytes_u32(b).len() == 4,
        le_u32(le_bytes_u32(b)) == b,
{
}

/// Decoding undoes encoding, for the 64-bit encodings.
pub proof fn lemma_decode_encode_u64(c: u64)
    ensures
        be_bytes_u64(c).len() == 8,
        be_u64(be_bytes_u64(c)) == c,
        le_bytes_u64(c).len() == 8,
        le_u64(le_bytes_u64(c)) == c,
{
    let hi = (c / 0x1_0000_0000) as u32;
    let lo = (c % 0x1_0000_0000) as u32;
    lemma_decode_encode_u32(0, hi);
    lemma_decode_encode_u32(0, lo);
    assert(be_bytes_u64(c).subrange(4, 8) =~= be_bytes_u32(lo));
    assert(le_bytes_u64(c).subrange(4, 8) =~= le_bytes_u32(hi));
    assert(be_u32(be_bytes_u64(c)) == be_u32(be_bytes_u32(hi)));
    assert(le_u32(le_bytes_u64(c)) == le_u32(le_bytes_u32(lo)));
}

/// `byteorder::LittleEndian::read_u32`: the little-endian value of the first
/// four bytes. The crate panics on a shorter slice.
#[verifier::external_body]
pub(crate) fn read_u32_le(buf: &[u8]) -> (n: u32)
    requires
        buf@.len() >= 4,
    ensures
        n == le_u32(buf@),
{
    <byteorder::LittleEndian as byteorder::ByteOrder>::read_u32(buf)
}

/// `byteorder::LittleEndian::read_u64`: the little-endian value of the first
/// eight bytes. The crate panics on a shorter slice.
#[verifier::external_body]
pub(crate) fn read_u64_le(buf: &[u8]) -> (n: u64)
    requires
        buf@.len() >= 8,
    ensures
        n == le_u64(buf@),
{
    <byteorder::LittleEndian as byteorder::ByteOrder>::read_u64(buf)
}

/// `byteorder::LittleEndian::write_u32` on the four bytes of `buf` that start
/// at `at`: they become the encoding of `n`, the others stay.
#[verifier::external_body]
pub(crate) fn write_u32_le(buf: &mut Vec<u8>, at: usize, n: u32)
    requires
        at + 4 <= old(buf)@.len(),
    ensures
        final(buf)@ == old(buf)@.subrange(0, at as int) + le_bytes_u32(n) + old(buf)@.subrange(
            at + 4,
            old(buf)@.len() as int,
        ),
{
    <byteorder::LittleEndian as byteorder::ByteOrder>::write_u32(&mut buf[at..at + 4], n)
}

/// `byteorder::LittleEndian::write_u64` on the eight bytes of `buf` that start
/// at `at`: they become the encoding of `n`, the others stay.
#[verifier::external_body]
pub(crate) fn write_u64_le(buf: &mut Vec<u8>, at: usize, n: u64)
    requires
        at + 8 <= old(buf)@.len(),
    ensures
        final(buf)@ == old(buf)@.subrange(0, at as int) + le_bytes_u64(n) + old(buf)@.subrange(
            at + 8,
            old(buf)@.len() as int,
        ),
{
    <byteorder::LittleEndian as byteorder::ByteOrder>::write_u64(&mut buf[at..at + 8], n)
}

/// `byteorder::BigEndian::read_u16`: the big-endian value of the first two
/// bytes. The crate panics on a shorter slice.
#[verifier::external_body]
pub(crate) fn read_u16_be(buf: &[u8]) -> (n: u16)
    requires
        buf@.len() >= 2,
    ensures
        n == be_u16(buf@),
{
    <byteorder::BigEndian as byteorder::ByteOrder>::read_u16(buf)
}

/// `byteorder::BigEndian::read_u32`: the big-endian value of the first four
/// bytes. The crate panics on a shorter slice.
#[verifier::external_body]
pub(crate) fn read_u32_be(buf: &[u8]) -> (n: u32)
    requires
        buf@.len() >= 4,
    ensures
        n == be_u32(buf@),
{
    <byteorder::BigEndian as byteorder::ByteOrder>::read_u32(buf)
}

/// `byteorder::BigEndian::read_u64`: the big-endian value of the first eight
/// bytes. The crate panics on a shorter slice.
#[verifier::external_body]
pub(crate) fn read_u64_be(buf: &[u8]) -> (n: u64)
    requires
        buf@.len() >= 8,
    ensures
        n == be_u64(buf@),
{
    <byteorder::BigEndian as byteorder::ByteOrder>::read_u64(buf)
}

/// `byteorder::BigEndian::write_u16` into a fresh two-byte buffer.
#[verifier::external_body]
pub(crate) fn u16_to_be(n: u16) -> (bytes: Vec<u8>)
    ensures
        bytes@ == be_bytes_u16(n),
{
    let mut bytes = vec![0u8; 2];
    <byteorder::BigEndian as byteorder::ByteOrder>::write_u16(&mut bytes, n);
    bytes
}

/// `byteorder::BigEndian::write_u32` into a fresh four-byte buffer.
#[verifier::external_body]
pub(crate) fn u32_to_be(n: u32) -> (bytes: Vec<u8>)
    ensures
        bytes@ == be_bytes_u32(n),
{
    let mut bytes = vec![0u8; 4];
    <byteorder::BigEndian as byteorder::ByteOrder>::write_u32(&mut bytes, n);
    bytes
}

/// `byteorder::BigEndian::write_u64` into a fresh eight-byte buffer.
#[verifier::external_body]
pub(crate) fn u64_to_be(n: u64) -> (bytes: Vec<u8>)
    ensures
        bytes@ == be_bytes_u64(n),
{
    let mut bytes = vec![0u8; 8];
    <byteorder::BigEndian as byteorder::ByteOrder>::write_u64(&mut bytes, n);
    bytes
}

/// The eight bytes that encode `n`, least significant first.
pub(crate) fn u64_to_le(n: u64) -> (bytes: Vec<u8>)
    ensures
        bytes@ == le_bytes_u64(n),
{
    let mut bytes: Vec<u8> = vec![0u8; 8];
    write_u64_le(&mut bytes, 0, n);
    proof {
        lemma_decode_encode_u64(n);
        assert(bytes@ =~= le_bytes_u64(n));
    }
    bytes
}

/// The four bytes that encode `n`, least significant first.
pub(crate) fn u32_to_le(n: u32) -> (bytes: Vec<u8>)
    ensures
        bytes@ == le_bytes_u32(n),
{
    let mut bytes: Vec<u8> = vec![0u8; 4];
    write_u32_le(&mut bytes, 0, n);
    proof {
        lemma_decode_encode_u32(0, n);
        assert(bytes@ =~= le_bytes_u32(n));
    }
    bytes
}

} // verus!

verus! {

/// Appends a copy of `src` to `dst`.
pub fn append_bytes(dst: &mut Vec<u8>, src: &[u8])
    ensures
        final(dst)@ == old(dst)@ + src@,
{
    let mut i: usize = 0;
    while i < src.len()
        invariant
            i <= src@.len(),
            dst@ == old(dst)@ + src@.subrange(0, i as int),
        decreases src@.len() - i,
    {
        dst.push(src[i]);
        i = i + 1;
        assert(dst@ =~= old(dst)@ + src@.subrange(0, i as int));
    }
    assert(src@.subrange(0, i as int) =~= src@);
}

/// A fresh vector holding a copy of `src`.
pub fn copy_bytes(src: &[u8]) -> (out: Vec<u8>)
    ensures
        out@ == src@,
{
    let mut out: Vec<u8> = Vec::new();
    append_bytes(&mut out, src);
    assert(out@ =~= src@);
    out
}

} // verus!
