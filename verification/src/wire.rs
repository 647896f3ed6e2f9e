//! Big-endian field access over byte buffers, through `byteorder`.
//!
//! The spec functions here say which integer a run of bytes denotes and
//! which bytes an integer is written as; the wrappers below call
//! `byteorder::BigEndian` and are trusted to agree with them.

use byteorder::{BigEndian, ByteOrder};
use vstd::prelude::*;

verus! {

/// The integer that two big-endian bytes denote.
pub open spec fn u16_from_be(b0: u8, b1: u8) -> u16 {
    ((b0 as u16) << 8u16) | (b1 as u16)
}

/// The integer that four big-endian bytes denote.
pub open spec fn u32_from_be(b0: u8, b1: u8, b2: u8, b3: u8) -> u32 {
    ((b0 as u32) << 24u32) | ((b1 as u32) << 16u32) | ((b2 as u32) << 8u32) | (b3 as u32)
}

/// The integer that eight big-endian bytes denote.
pub open spec fn u64_from_be(b0: u8, b1: u8, b2: u8, b3: u8, b4: u8, b5: u8, b6: u8, b7: u8) -> u64 {
    ((b0 as u64) << 56u64) | ((b1 as u64) << 48u64) | ((b2 as u64) << 40u64) | ((b3 as u64)
        << 32u64) | ((b4 as u64) << 24u64) | ((b5 as u64) << 16u64) | ((b6 as u64) << 8u64) | (
    b7 as u64)
}

/// The big-endian `u16` stored at offset `i` of `b`.
pub open spec fn be16(b: Seq<u8>, i: int) -> u16 {
    u16_from_be(b[i], b[i + 1])
}

/// The big-endian `u32` stored at offset `i` of `b`.
pub open spec fn be32(b: Seq<u8>, i: int) -> u32 {
    u32_from_be(b[i], b[i + 1], b[i + 2], b[i + 3])
}

/// The big-endian `u64` stored at offset `i` of `b`.
pub open spec fn be64(b: Seq<u8>, i: int) -> u64 {
    u64_from_be(b[i], b[i + 1], b[i + 2], b[i + 3], b[i + 4], b[i + 5], b[i + 6], b[i + 7])
}

/// The two bytes of `n`, most significant first.
pub open spec fn be16_bytes(n: u16) -> Seq<u8> {
    seq![((n >> 8u16) & 0xffu16) as u8, (n & 0xffu16) as u8]
}

/// The four bytes of `n`, most significant first.
pub open spec fn be32_bytes(n: u32) -> Seq<u8> {
    seq![
        ((n >> 24u32) & 0xffu32) as u8,
        ((n >> 16u32) & 0xffu32) as u8,
        ((n >> 8u32) & 0xffu32) as u8,
        (n & 0xffu32) as u8,
    ]
}

/// The eight bytes of `n`, most significant first.
pub open spec fn be64_bytes(n: u64) -> Seq<u8> {
    seq![
        ((n >> 56u64) & 0xffu64) as u8,
        ((n >> 48u64) & 0xffu64) as u8,
        ((n >> 40u64) & 0xffu64) as u8,
        ((n >> 32u64) & 0xffu64) as u8,
        ((n >> 24u64) & 0xffu64) as u8,
        ((n >> 16u64) & 0xffu64) as u8,
        ((n >> 8u64) & 0xffu64) as u8,
        (n & 0xffu64) as u8,
    ]
}

/// `s` with the bytes from offset `off` on replaced by `bytes`.
pub open spec fn splice(s: Seq<u8>, off: int, bytes: Seq<u8>) -> Seq<u8> {
    s.take(off) + bytes + s.skip(off + bytes.len())
}

/// Reading back the bytes of a `u16` gives the `u16`.
pub proof fn lemma_be16_roundtrip(n: u16)
    ensures
        be16(be16_bytes(n), 0) == n,
{
    let b = be16_bytes(n);
    assert(u16_from_be(((n >> 8u16) & 0xffu16) as u8, (n & 0xffu16) as u8) == n) by (bit_vector);
}

/// Reading back the bytes of a `u32` gives the `u32`.
pub proof fn lemma_be32_roundtrip(n: u32)
    ensures
        be32(be32_bytes(n), 0) == n,
{
    let b = be32_bytes(n);
    assert(u32_from_be(
        ((n >> 24u32) & 0xffu32) as u8,
        ((n >> 16u32) & 0xffu32) as u8,
        ((n >> 8u32) & 0xffu32) as u8,
        (n & 0xffu32) as u8,
    ) == n) by (bit_vector);
}

/// Reading back the bytes of a `u64` gives the `u64`.
pub proof fn lemma_be64_roundtrip(n: u64)
    ensures
        be64(be64_bytes(n), 0) == n,
{
    let b = be64_bytes(n);
    assert(u64_from_be(
        ((n >> 56u64) & 0xffu64) as u8,
        ((n >> 48u64) & 0xffu64) as u8,
        ((n >> 40u64) & 0xffu64) as u8,
        ((n >> 32u64) & 0xffu64) as u8,
        ((n >> 24u64) & 0xffu64) as u8,
        ((n >> 16u64) & 0xffu64) as u8,
        ((n >> 8u64) & 0xffu64) as u8,
        (n & 0xffu64) as u8,
    ) == n) by (bit_vector);
}


/// Writing back the integer that two bytes denote gives the bytes.
pub proof fn lemma_be16_bytes_of(s: Seq<u8>, i: int)
    requires
        0 <= i && i + 2 <= s.len(),
    ensures
        be16_bytes(be16(s, i)) == s.subrange(i, i + 2),
{
    let b0 = s[i];
    let b1 = s[i + 1];
    let x = u16_from_be(b0, b1);
    assert(((x >> 8u16) & 0xffu16) as u8 == b0 && (x & 0xffu16) as u8 == b1) by (bit_vector)
        requires
            x == u16_from_be(b0, b1),
    ;
    assert(be16_bytes(be16(s, i)) =~= s.subrange(i, i + 2));
}

/// Writing back the integer that four bytes denote gives the bytes.
pub proof fn lemma_be32_bytes_of(s: Seq<u8>, i: int)
    requires
        0 <= i && i + 4 <= s.len(),
    ensures
        be32_bytes(be32(s, i)) == s.subrange(i, i + 4),
{
    let b0 = s[i];
    let b1 = s[i + 1];
    let b2 = s[i + 2];
    let b3 = s[i + 3];
    let x = u32_from_be(b0, b1, b2, b3);
    assert(((x >> 24u32) & 0xffu32) as u8 == b0 && ((x >> 16u32) & 0xffu32) as u8 == b1 && ((x
        >> 8u32) & 0xffu32) as u8 == b2 && (x & 0xffu32) as u8 == b3) by (bit_vector)
        requires
            x == u32_from_be(b0, b1, b2, b3),
    ;
    assert(be32_bytes(be32(s, i)) =~= s.subrange(i, i + 4));
}

/// Writing back the integer that eight bytes denote gives the bytes.
pub proof fn lemma_be64_bytes_of(s: Seq<u8>, i: int)
    requires
        0 <= i && i + 8 <= s.len(),
    ensures
        be64_bytes(be64(s, i)) == s.subrange(i, i + 8),
{
    let b0 = s[i];
    let b1 = s[i + 1];
    let b2 = s[i + 2];
    let b3 = s[i + 3];
    let b4 = s[i + 4];
    let b5 = s[i + 5];
    let b6 = s[i + 6];
    let b7 = s[i + 7];
    let x = u64_from_be(b0, b1, b2, b3, b4, b5, b6, b7);
    assert(((x >> 56u64) & 0xffu64) as u8 == b0 && ((x >> 48u64) & 0xffu64) as u8 == b1 && ((x
        >> 40u64) & 0xffu64) as u8 == b2 && ((x >> 32u64) & 0xffu64) as u8 == b3 && ((x >> 24u64)
        & 0xffu64) as u8 == b4 && ((x >> 16u64) & 0xffu64) as u8 == b5 && ((x >> 8u64) & 0xffu64)
        as u8 == b6 && (x & 0xffu64) as u8 == b7) by (bit_vector)
        requires
            x == u64_from_be(b0, b1, b2, b3, b4, b5, b6, b7),
    ;
    assert(be64_bytes(be64(s, i)) =~= s.subrange(i, i + 8));
}

/// Calls `byteorder::BigEndian::read_u16` on the two bytes at `off`;
/// trusted to return the big-endian integer those bytes denote.
#[verifier::external_body]
pub(crate) fn read_u16_at(buf: &[u8], off: usize) -> (r: u16)
    requires
        off + 2 <= buf@.len(),
    ensures
        r == be16(buf@, off as int),
{
    BigEndian::read_u16(&buf[off..off + 2])
}

/// Calls `byteorder::BigEndian::read_u32` on the four bytes at `off`;
/// trusted to return the big-endian integer those bytes denote.
#[verifier::external_body]
pub(crate) fn read_u32_at(buf: &[u8], off: usize) -> (r: u32)
    requires
        off + 4 <= buf@.len(),
    ensures
        r == be32(buf@, off as int),
{
    BigEndian::read_u32(&buf[off..off + 4])
}

/// Calls `byteorder::BigEndian::read_u64` on the eight bytes at `off`;
/// trusted to return the big-endian integer those bytes denote.
#[verifier::external_body]
pub(crate) fn read_u64_at(buf: &[u8], off: usize) -> (r: u64)
    requires
        off + 8 <= buf@.len(),
    ensures
        r == be64(buf@, off as int),
{
    BigEndian::read_u64(&buf[off..off + 8])
}

/// Calls `byteorder::BigEndian::write_u16` on the two bytes at `off`;
/// trusted to store `n` most significant byte first and touch nothing else.
#[verifier::external_body]
pub(crate) fn write_u16_at(buf: &mut [u8], off: usize, n: u16)
    requires
        off + 2 <= old(buf)@.len(),
    ensures
        final(buf)@ == splice(old(buf)@, off as int, be16_bytes(n)),
{
    BigEndian::write_u16(&mut buf[off..off + 2], n)
}

/// Calls `byteorder::BigEndian::write_u32` on the four bytes at `off`;
/// trusted to store `n` most significant byte first and touch nothing else.
#[verifier::external_body]
pub(crate) fn write_u32_at(buf: &mut [u8], off: usize, n: u32)
    requires
        off + 4 <= old(buf)@.len(),
    ensures
        final(buf)@ == splice(old(buf)@, off as int, be32_bytes(n)),
{
    BigEndian::write_u32(&mut buf[off..off + 4], n)
}

/// Calls `byteorder::BigEndian::write_u64` on the eight bytes at `off`;
/// trusted to store `n` most significant byte first and touch nothing else.
#[verifier::external_body]
pub(crate) fn write_u64_at(buf: &mut [u8], off: usize, n: u64)
    requires
        off + 8 <= old(buf)@.len(),
    ensures
        final(buf)@ == splice(old(buf)@, off as int, be64_bytes(n)),
{
    BigEndian::write_u64(&mut buf[off..off + 8], n)
}

} // verus!
