//! Little-endian encoding and decoding of fixed-width integers.
use vstd::prelude::*;

verus! {

/// The two bytes of `v`, least significant first.
pub open spec fn le_bytes16(v: u16) -> Seq<u8> {
    seq![v as u8, (v >> 8u16) as u8]
}

/// The four bytes of `v`, least significant first.
pub open spec fn le_bytes32(v: u32) -> Seq<u8> {
    seq![v as u8, (v >> 8u32) as u8, (v >> 16u32) as u8, (v >> 24u32) as u8]
}

/// The eight bytes of `v`, least significant first.
pub open spec fn le_bytes64(v: u64) -> Seq<u8> {
    seq![
        v as u8,
        (v >> 8u64) as u8,
        (v >> 16u64) as u8,
        (v >> 24u64) as u8,
        (v >> 32u64) as u8,
        (v >> 40u64) as u8,
        (v >> 48u64) as u8,
        (v >> 56u64) as u8,
    ]
}

/// The sixteen bytes of `v`, least significant first.
pub open spec fn le_bytes128(v: u128) -> Seq<u8> {
    le_bytes64(v as u64) + le_bytes64((v >> 64u128) as u64)
}

/// The value of the first two bytes of `b` read as a little-endian integer.
pub open spec fn le_u16(b: Seq<u8>) -> u16 {
    (b[0] as u16) | ((b[1] as u16) << 8u16)
}

/// The value of the first four bytes of `b` read as a little-endian integer.
pub open spec fn le_u32(b: Seq<u8>) -> u32 {
    (b[0] as u32) | ((b[1] as u32) << 8u32) | ((b[2] as u32) << 16u32) | ((b[3] as u32) << 24u32)
}

/// The value of the first eight bytes of `b` read as a little-endian integer.
pub open spec fn le_u64(b: Seq<u8>) -> u64 {
    (b[0] as u64) | ((b[1] as u64) << 8u64) | ((b[2] as u64) << 16u64) | ((b[3] as u64) << 24u64)
        | ((b[4] as u64) << 32u64) | ((b[5] as u64) << 40u64) | ((b[6] as u64) << 48u64) | ((
    b[7] as u64) << 56u64)
}

/// Encodings have the width of their type.
pub broadcast proof fn lemma_le_bytes16_len(v: u16)
    ensures
        #[trigger] le_bytes16(v).len() == 2,
{
}

/// Encodings have the width of their type.
pub broadcast proof fn lemma_le_bytes32_len(v: u32)
    ensures
        #[trigger] le_bytes32(v).len() == 4,
{
}

/// Encodings have the width of their type.
pub broadcast proof fn lemma_le_bytes64_len(v: u64)
    ensures
        #[trigger] le_bytes64(v).len() == 8,
{
}

/// Encodings have the width of their type.
pub broadcast proof fn lemma_le_bytes128_len(v: u128)
    ensures
        #[trigger] le_bytes128(v).len() == 16,
{
}

/// Decoding the encoding of a 16-bit value gives the value back.
pub proof fn lemma_le16_roundtrip(v: u16)
    ensures
        le_u16(le_bytes16(v)) == v,
        le_bytes16(v).len() == 2,
{
    let b0 = v as u8;
    let b1 = (v >> 8u16) as u8;
    assert(((b0 as u16) | ((b1 as u16) << 8u16)) == v) by (bit_vector)
        requires
            b0 == v as u8,
            b1 == (v >> 8u16) as u8,
    ;
}

/// Decoding the encoding of a 32-bit value gives the value back.
pub proof fn lemma_le32_roundtrip(v: u32)
    ensures
        le_u32(le_bytes32(v)) == v,
        le_bytes32(v).len() == 4,
{
    let b0 = v as u8;
    let b1 = (v >> 8u32) as u8;
    let b2 = (v >> 16u32) as u8;
    let b3 = (v >> 24u32) as u8;
    assert(((b0 as u32) | ((b1 as u32) << 8u32) | ((b2 as u32) << 16u32) | ((b3 as u32) << 24u32))
        == v) by (bit_vector)
        requires
            b0 == v as u8,
            b1 == (v >> 8u32) as u8,
            b2 == (v >> 16u32) as u8,
            b3 == (v >> 24u32) as u8,
    ;
}

/// Decoding the encoding of a 64-bit value gives the value back.
pub proof fn lemma_le64_roundtrip(v: u64)
    ensures
        le_u64(le_bytes64(v)) == v,
        le_bytes64(v).len() == 8,
{
    let b0 = v as u8;
    let b1 = (v >> 8u64) as u8;
    let b2 = (v >> 16u64) as u8;
    let b3 = (v >> 24u64) as u8;
    let b4 = (v >> 32u64) as u8;
    let b5 = (v >> 40u64) as u8;
    let b6 = (v >> 48u64) as u8;
    let b7 = (v >> 56u64) as u8;
    assert(((b0 as u64) | ((b1 as u64) << 8u64) | ((b2 as u64) << 16u64) | ((b3 as u64) << 24u64)
        | ((b4 as u64) << 32u64) | ((b5 as u64) << 40u64) | ((b6 as u64) << 48u64) | ((b7 as u64)
        << 56u64)) == v) by (bit_vector)
        requires
            b0 == v as u8,
            b1 == (v >> 8u64) as u8,
            b2 == (v >> 16u64) as u8,
            b3 == (v >> 24u64) as u8,
            b4 == (v >> 32u64) as u8,
            b5 == (v >> 40u64) as u8,
            b6 == (v >> 48u64) as u8,
            b7 == (v >> 56u64) as u8,
    ;
}

/// Encodes `v` as two little-endian bytes.
pub fn encode_u16(v: u16) -> (r: Vec<u8>)
    ensures
        r@ == le_bytes16(v),
{
    let r = vec![v as u8, (v >> 8u16) as u8];
    assert(r@ =~= le_bytes16(v));
    r
}

/// Encodes `v` as four little-endian bytes.
pub fn encode_u32(v: u32) -> (r: Vec<u8>)
    ensures
        r@ == le_bytes32(v),
{
    let r = vec![v as u8, (v >> 8u32) as u8, (v >> 16u32) as u8, (v >> 24u32) as u8];
    assert(r@ =~= le_bytes32(v));
    r
}

/// Encodes `v` as eight little-endian bytes.
pub fn encode_u64(v: u64) -> (r: Vec<u8>)
    ensures
        r@ == le_bytes64(v),
{
    let r = vec![
        v as u8,
        (v >> 8u64) as u8,
        (v >> 16u64) as u8,
        (v >> 24u64) as u8,
        (v >> 32u64) as u8,
        (v >> 40u64) as u8,
        (v >> 48u64) as u8,
        (v >> 56u64) as u8,
    ];
    assert(r@ =~= le_bytes64(v));
    r
}

/// Reads the first two bytes of `b` as a little-endian integer.
pub fn decode_u16(b: &[u8]) -> (r: u16)
    requires
        b@.len() >= 2,
    ensures
        r == le_u16(b@),
{
    (b[0] as u16) | ((b[1] as u16) << 8u16)
}

/// Reads the first four bytes of `b` as a little-endian integer.
pub fn decode_u32(b: &[u8]) -> (r: u32)
    requires
        b@.len() >= 4,
    ensures
        r == le_u32(b@),
{
    (b[0] as u32) | ((b[1] as u32) << 8u32) | ((b[2] as u32) << 16u32) | ((b[3] as u32) << 24u32)
}

/// Reads the first eight bytes of `b` as a little-endian integer.
pub fn decode_u64(b: &[u8]) -> (r: u64)
    requires
        b@.len() >= 8,
    ensures
        r == le_u64(b@),
{
    (b[0] as u64) | ((b[1] as u64) << 8u64) | ((b[2] as u64) << 16u64) | ((b[3] as u64) << 24u64)
        | ((b[4] as u64) << 32u64) | ((b[5] as u64) << 40u64) | ((b[6] as u64) << 48u64) | ((
    b[7] as u64) << 56u64)
}

} // verus!
