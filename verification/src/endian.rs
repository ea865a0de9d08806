//! Big-endian integers in byte buffers, read and written with `byteorder`.
use byteorder::{BigEndian, ByteOrder};
use vstd::prelude::*;

verus! {

/// The eight big-endian bytes of `n`.
pub open spec fn u64_be_bytes(n: u64) -> Seq<u8> {
    seq![
        ((n >> 56) & 0xff) as u8,
        ((n >> 48) & 0xff) as u8,
        ((n >> 40) & 0xff) as u8,
        ((n >> 32) & 0xff) as u8,
        ((n >> 24) & 0xff) as u8,
        ((n >> 16) & 0xff) as u8,
        ((n >> 8) & 0xff) as u8,
        (n & 0xff) as u8,
    ]
}

/// The number that the first eight bytes of `s` write in big-endian order.
pub open spec fn u64_from_be(s: Seq<u8>) -> u64 {
    (s[0] as u64) << 56 | (s[1] as u64) << 48 | (s[2] as u64) << 40 | (s[3] as u64) << 32 | (
    s[4] as u64) << 24 | (s[5] as u64) << 16 | (s[6] as u64) << 8 | (s[7] as u64)
}

/// The four big-endian bytes of `n`.
pub open spec fn u32_be_bytes(n: u32) -> Seq<u8> {
    seq![
        ((n >> 24) & 0xff) as u8,
        ((n >> 16) & 0xff) as u8,
        ((n >> 8) & 0xff) as u8,
        (n & 0xff) as u8,
    ]
}

/// The number that the first four bytes of `s` write in big-endian order.
pub open spec fn u32_from_be(s: Seq<u8>) -> u32 {
    (s[0] as u32) << 24 | (s[1] as u32) << 16 | (s[2] as u32) << 8 | (s[3] as u32)
}

/// Reading back the bytes of a `u64` gives the `u64`.
pub proof fn lemma_u64_be_roundtrip(n: u64)
    ensures
        u64_be_bytes(n).len() == 8,
        u64_from_be(u64_be_bytes(n)) == n,
{
    let s = u64_be_bytes(n);
    let b0 = ((n >> 56) & 0xff) as u8;
    let b1 = ((n >> 48) & 0xff) as u8;
    let b2 = ((n >> 40) & 0xff) as u8;
    let b3 = ((n >> 32) & 0xff) as u8;
    let b4 = ((n >> 24) & 0xff) as u8;
    let b5 = ((n >> 16) & 0xff) as u8;
    let b6 = ((n >> 8) & 0xff) as u8;
    let b7 = (n & 0xff) as u8;
    assert(s[0] == b0 && s[1] == b1 && s[2] == b2 && s[3] == b3 && s[4] == b4 && s[5] == b5
        && s[6] == b6 && s[7] == b7);
    assert((b0 as u64) << 56 | (b1 as u64) << 48 | (b2 as u64) << 40 | (b3 as u64) << 32 | (
    b4 as u64) << 24 | (b5 as u64) << 16 | (b6 as u64) << 8 | (b7 as u64) == n) by (bit_vector)
        requires
            b0 == ((n >> 56) & 0xff) as u8,
            b1 == ((n >> 48) & 0xff) as u8,
            b2 == ((n >> 40) & 0xff) as u8,
            b3 == ((n >> 32) & 0xff) as u8,
            b4 == ((n >> 24) & 0xff) as u8,
            b5 == ((n >> 16) & 0xff) as u8,
            b6 == ((n >> 8) & 0xff) as u8,
            b7 == (n & 0xff) as u8,
    ;
}

/// Reading back the bytes of a `u32` gives the `u32`.
pub proof fn lemma_u32_be_roundtrip(n: u32)
    ensures
        u32_be_bytes(n).len() == 4,
        u32_from_be(u32_be_bytes(n)) == n,
{
    let s = u32_be_bytes(n);
    let b0 = ((n >> 24) & 0xff) as u8;
    let b1 = ((n >> 16) & 0xff) as u8;
    let b2 = ((n >> 8) & 0xff) as u8;
    let b3 = (n & 0xff) as u8;
    assert(s[0] == b0 && s[1] == b1 && s[2] == b2 && s[3] == b3);
    assert((b0 as u32) << 24 | (b1 as u32) << 16 | (b2 as u32) << 8 | (b3 as u32) == n)
        by (bit_vector)
        requires
            b0 == ((n >> 24) & 0xff) as u8,
            b1 == ((n >> 16) & 0xff) as u8,
            b2 == ((n >> 8) & 0xff) as u8,
            b3 == (n & 0xff) as u8,
    ;
}

/// Reads the big-endian `u64` at `data[at..at + 8]`.
///
/// Calls `byteorder::BigEndian::read_u64` on the bytes from `at` on, which
/// reads their first eight bytes, most significant first; the contract claims
/// that value.
#[verifier::external_body]
pub(crate) fn read_u64_be(data: &[u8], at: usize) -> (n: u64)
    requires
        at + 8 <= data@.len(),
    ensures
        n == u64_from_be(data@.subrange(at as int, at + 8)),
{
    BigEndian::read_u64(&data[at..])
}

/// Reads the big-endian `u32` at `data[at..at + 4]`.
///
/// Calls `byteorder::BigEndian::read_u32` on the bytes from `at` on, which
/// reads their first four bytes, most significant first; the contract claims
/// that value.
#[verifier::external_body]
pub(crate) fn read_u32_be(data: &[u8], at: usize) -> (n: u32)
    requires
        at + 4 <= data@.len(),
    ensures
        n == u32_from_be(data@.subrange(at as int, at + 4)),
{
    BigEndian::read_u32(&data[at..])
}

/// Appends the eight big-endian bytes of `n` to `out`.
///
/// Calls `byteorder::BigEndian::write_u64` into an eight-byte buffer, which
/// stores `n` most significant byte first; the contract claims those bytes
/// are appended.
#[verifier::external_body]
pub(crate) fn push_u64_be(out: &mut Vec<u8>, n: u64)
    ensures
        final(out)@ == old(out)@ + u64_be_bytes(n),
{
    let mut buf = [0u8; 8];
    BigEndian::write_u64(&mut buf, n);
    out.extend_from_slice(&buf);
}

/// Appends the four big-endian bytes of `n` to `out`.
///
/// Calls `byteorder::BigEndian::write_u32` into a four-byte buffer, which
/// stores `n` most significant byte first; the contract claims those bytes
/// are appended.
#[verifier::external_body]
pub(crate) fn push_u32_be(out: &mut Vec<u8>, n: u32)
    ensures
        final(out)@ == old(out)@ + u32_be_bytes(n),
{
    let mut buf = [0u8; 4];
    BigEndian::write_u32(&mut buf, n);
    out.extend_from_slice(&buf);
}

} // verus!
