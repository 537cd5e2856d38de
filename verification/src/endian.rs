//! Big-endian integer encodings used in attribute headers and payloads.

use vstd::prelude::*;

verus! {

pub open spec fn be16(v: u16) -> Seq<u8> {
    seq![(v >> 8u16) as u8, v as u8]
}

pub open spec fn be32(v: u32) -> Seq<u8> {
    seq![(v >> 24u32) as u8, (v >> 16u32) as u8, (v >> 8u32) as u8, v as u8]
}

pub open spec fn be64(v: u64) -> Seq<u8> {
    seq![
        (v >> 56u64) as u8,
        (v >> 48u64) as u8,
        (v >> 40u64) as u8,
        (v >> 32u64) as u8,
        (v >> 24u64) as u8,
        (v >> 16u64) as u8,
        (v >> 8u64) as u8,
        v as u8,
    ]
}

pub open spec fn from_be16(b: Seq<u8>) -> u16 {
    ((b[0] as u16) << 8u16) | (b[1] as u16)
}

pub open spec fn from_be32(b: Seq<u8>) -> u32 {
    ((b[0] as u32) << 24u32) | ((b[1] as u32) << 16u32) | ((b[2] as u32) << 8u32) | (b[3] as u32)
}

pub open spec fn from_be64(b: Seq<u8>) -> u64 {
    ((b[0] as u64) << 56u64) | ((b[1] as u64) << 48u64) | ((b[2] as u64) << 40u64) | ((b[3] as u64)
        << 32u64) | ((b[4] as u64) << 24u64) | ((b[5] as u64) << 16u64) | ((b[6] as u64) << 8u64)
        | (b[7] as u64)
}

pub fn to_be16(v: u16) -> (r: Vec<u8>)
    ensures
        r@ == be16(v),
{
    let mut r: Vec<u8> = Vec::new();
    r.push((v >> 8u16) as u8);
    r.push(v as u8);
    assert(r@ =~= be16(v));
    r
}

pub fn to_be32(v: u32) -> (r: Vec<u8>)
    ensures
        r@ == be32(v),
{
    let mut r: Vec<u8> = Vec::new();
    r.push((v >> 24u32) as u8);
    r.push((v >> 16u32) as u8);
    r.push((v >> 8u32) as u8);
    r.push(v as u8);
    assert(r@ =~= be32(v));
    r
}

pub fn to_be64(v: u64) -> (r: Vec<u8>)
    ensures
        r@ == be64(v),
{
    let mut r: Vec<u8> = Vec::new();
    r.push((v >> 56u64) as u8);
    r.push((v >> 48u64) as u8);
    r.push((v >> 40u64) as u8);
    r.push((v >> 32u64) as u8);
    r.push((v >> 24u64) as u8);
    r.push((v >> 16u64) as u8);
    r.push((v >> 8u64) as u8);
    r.push(v as u8);
    assert(r@ =~= be64(v));
    r
}

pub fn read_be16(b: &[u8]) -> (r: u16)
    requires
        b@.len() >= 2,
    ensures
        r == from_be16(b@),
{
    ((b[0] as u16) << 8u16) | (b[1] as u16)
}

pub fn read_be32(b: &[u8]) -> (r: u32)
    requires
        b@.len() >= 4,
    ensures
        r == from_be32(b@),
{
    ((b[0] as u32) << 24u32) | ((b[1] as u32) << 16u32) | ((b[2] as u32) << 8u32) | (b[3] as u32)
}

pub fn read_be64(b: &[u8]) -> (r: u64)
    requires
        b@.len() >= 8,
    ensures
        r == from_be64(b@),
{
    ((b[0] as u64) << 56u64) | ((b[1] as u64) << 48u64) | ((b[2] as u64) << 40u64) | ((b[3] as u64)
        << 32u64) | ((b[4] as u64) << 24u64) | ((b[5] as u64) << 16u64) | ((b[6] as u64) << 8u64)
        | (b[7] as u64)
}

/// Decoding an encoded 16-bit value gives it back.
pub proof fn lemma_be16_roundtrip(v: u16)
    ensures
        from_be16(be16(v)) == v,
{
    let b = be16(v);
    let b0 = b[0];
    let b1 = b[1];
    assert(b0 == (v >> 8u16) as u8 && b1 == v as u8 ==> ((b0 as u16) << 8u16) | (b1 as u16) == v)
        by (bit_vector);
}

/// Decoding an encoded 32-bit value gives it back.
pub proof fn lemma_be32_roundtrip(v: u32)
    ensures
        from_be32(be32(v)) == v,
{
    let b = be32(v);
    let (b0, b1, b2, b3) = (b[0], b[1], b[2], b[3]);
    assert(b0 == (v >> 24u32) as u8 && b1 == (v >> 16u32) as u8 && b2 == (v >> 8u32) as u8 && b3
        == v as u8 ==> ((b0 as u32) << 24u32) | ((b1 as u32) << 16u32) | ((b2 as u32) << 8u32) | (
    b3 as u32) == v) by (bit_vector);
}

/// Decoding an encoded 64-bit value gives it back.
pub proof fn lemma_be64_roundtrip(v: u64)
    ensures
        from_be64(be64(v)) == v,
{
    let b = be64(v);
    let (b0, b1, b2, b3, b4, b5, b6, b7) = (b[0], b[1], b[2], b[3], b[4], b[5], b[6], b[7]);
    assert(b0 == (v >> 56u64) as u8 && b1 == (v >> 48u64) as u8 && b2 == (v >> 40u64) as u8 && b3
        == (v >> 32u64) as u8 && b4 == (v >> 24u64) as u8 && b5 == (v >> 16u64) as u8 && b6 == (v
        >> 8u64) as u8 && b7 == v as u8 ==> ((b0 as u64) << 56u64) | ((b1 as u64) << 48u64) | ((
    b2 as u64) << 40u64) | ((b3 as u64) << 32u64) | ((b4 as u64) << 24u64) | ((b5 as u64)
        << 16u64) | ((b6 as u64) << 8u64) | (b7 as u64) == v) by (bit_vector);
}

} // verus!
