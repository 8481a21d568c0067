//! Big-endian encoding and decoding of the two- and four-byte integer fields
//! that the JPEG and IPTC layouts use.

use vstd::prelude::*;

verus! {

/// The value of two bytes read big-endian.
pub open spec fn spec_be16(hi: u8, lo: u8) -> u16 {
    (hi * 256 + lo) as u16
}

/// The two-byte big-endian encoding of a 16-bit value.
pub open spec fn spec_be16_bytes(v: u16) -> Seq<u8> {
    seq![(v / 256) as u8, (v % 256) as u8]
}

/// The value of four bytes read big-endian.
pub open spec fn spec_be32(b0: u8, b1: u8, b2: u8, b3: u8) -> u32 {
    (b0 * 0x1000000 + b1 * 0x10000 + b2 * 0x100 + b3) as u32
}

/// The four-byte big-endian encoding of a 32-bit value.
pub open spec fn spec_be32_bytes(v: u32) -> Seq<u8> {
    seq![
        (v / 0x1000000) as u8,
        ((v / 0x10000) % 0x100) as u8,
        ((v / 0x100) % 0x100) as u8,
        (v % 0x100) as u8,
    ]
}

/// Reads a 16-bit big-endian value from two bytes.
pub fn be16(hi: u8, lo: u8) -> (r: u16)
    ensures
        r == spec_be16(hi, lo),
{
    (hi as u16) * 256 + (lo as u16)
}

/// Reads a 32-bit big-endian value from four bytes.
pub fn be32(b0: u8, b1: u8, b2: u8, b3: u8) -> (r: u32)
    ensures
        r == spec_be32(b0, b1, b2, b3),
{
    (b0 as u32) * 0x1000000 + (b1 as u32) * 0x10000 + (b2 as u32) * 0x100 + (b3 as u32)
}

/// Appends the two-byte big-endian encoding of `v` to `out`.
pub fn push_be16(out: &mut Vec<u8>, v: u16)
    ensures
        final(out)@ == old(out)@ + spec_be16_bytes(v),
{
    out.push((v / 256) as u8);
    out.push((v % 256) as u8);
    assert(out@ =~= old(out)@ + spec_be16_bytes(v));
}

/// Appends the four-byte big-endian encoding of `v` to `out`.
pub fn push_be32(out: &mut Vec<u8>, v: u32)
    ensures
        final(out)@ == old(out)@ + spec_be32_bytes(v),
{
    out.push((v / 0x1000000) as u8);
    out.push(((v / 0x10000) % 0x100) as u8);
    out.push(((v / 0x100) % 0x100) as u8);
    out.push((v % 0x100) as u8);
    assert(out@ =~= old(out)@ + spec_be32_bytes(v));
}

/// Decoding inverts the two-byte encoding.
pub proof fn lemma_be16_roundtrip(v: u16)
    ensures
        spec_be16_bytes(v).len() == 2,
        spec_be16((v / 256) as u8, (v % 256) as u8) == v,
{
}

/// Decoding inverts the four-byte encoding.
pub proof fn lemma_be32_roundtrip(v: u32)
    ensures
        spec_be32_bytes(v).len() == 4,
        spec_be32(
            (v / 0x1000000) as u8,
            ((v / 0x10000) % 0x100) as u8,
            ((v / 0x100) % 0x100) as u8,
            (v % 0x100) as u8,
        ) == v,
{
}

} // verus!
