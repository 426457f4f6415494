//! Record payload codec.
//!
//! The stored payload carries only the measurement's value bits: the sensor
//! and timestamp are already held by the key, so they are elided from the
//! payload. The payload is the value field in protobuf wire format: the tag
//! byte `0x19` (field 3, 64-bit wire type), then the 8 value bits
//! little-endian. An empty payload is also accepted on read and stands for
//! value bits 0 (the wire format omits a field equal to its default).

use vstd::prelude::*;

verus! {

/// Byte `i` (0 = least significant) of the little-endian encoding of `x`.
pub open spec fn le_byte(x: u64, i: int) -> u8 {
    ((x >> ((i * 8) as u64)) & 0xff) as u8
}

/// The 8-byte little-endian encoding of `x`.
pub open spec fn u64_le_bytes(x: u64) -> Seq<u8> {
    Seq::new(8, |i: int| le_byte(x, i))
}

/// The value whose little-endian encoding an 8-byte sequence is.
pub open spec fn u64_from_le_bytes(s: Seq<u8>) -> u64
    recommends
        s.len() == 8,
{
    (s[0] as u64) | ((s[1] as u64) << 8u64) | ((s[2] as u64) << 16u64) | ((s[3] as u64) << 24u64)
        | ((s[4] as u64) << 32u64) | ((s[5] as u64) << 40u64) | ((s[6] as u64) << 48u64) | ((
    s[7] as u64) << 56u64)
}

/// The encoded payload of a measurement with the given value bits.
pub open spec fn payload_bytes(bits: u64) -> Seq<u8> {
    seq![0x19u8] + u64_le_bytes(bits)
}

/// What decoding a stored payload yields: the value bits, or nothing if the
/// bytes are not a value-only record payload.
pub open spec fn spec_decode_payload(v: Seq<u8>) -> Option<u64> {
    if v.len() == 0 {
        Some(0u64)
    } else if v.len() == 9 && v[0] == 0x19u8 {
        Some(u64_from_le_bytes(v.skip(1)))
    } else {
        None
    }
}

/// Encodes the value bits of a measurement as its stored payload.
pub fn encode_payload(bits: u64) -> (r: Vec<u8>)
    ensures
        r@ == payload_bytes(bits),
{
    let mut res: Vec<u8> = Vec::new();
    res.push(0x19);
    res.push(((bits >> 0u64) & 0xff) as u8);
    res.push(((bits >> 8u64) & 0xff) as u8);
    res.push(((bits >> 16u64) & 0xff) as u8);
    res.push(((bits >> 24u64) & 0xff) as u8);
    res.push(((bits >> 32u64) & 0xff) as u8);
    res.push(((bits >> 40u64) & 0xff) as u8);
    res.push(((bits >> 48u64) & 0xff) as u8);
    res.push(((bits >> 56u64) & 0xff) as u8);
    assert(res@ =~= payload_bytes(bits));
    res
}

/// Decodes a stored payload back into value bits.
pub fn decode_payload(v: &Vec<u8>) -> (r: Option<u64>)
    ensures
        r == spec_decode_payload(v@),
{
    if v.len() == 0 {
        return Some(0);
    }
    if v.len() != 9 {
        return None;
    }
    if v[0] != 0x19 {
        return None;
    }
    let bits = (v[1] as u64) | ((v[2] as u64) << 8u64) | ((v[3] as u64) << 16u64) | ((v[4] as u64)
        << 24u64) | ((v[5] as u64) << 32u64) | ((v[6] as u64) << 40u64) | ((v[7] as u64) << 48u64)
        | ((v[8] as u64) << 56u64);
    assert(v@.skip(1)[0] == v@[1]);
    Some(bits)
}

/// Payload encoding and decoding invert each other.
pub proof fn lemma_payload_round_trip(bits: u64)
    ensures
        spec_decode_payload(payload_bytes(bits)) == Some(bits),
{
    let p = payload_bytes(bits);
    let s = p.skip(1);
    assert(s =~= u64_le_bytes(bits));
    assert(s[0] == ((bits >> 0u64) & 0xff) as u8);
    assert(s[1] == ((bits >> 8u64) & 0xff) as u8);
    assert(s[2] == ((bits >> 16u64) & 0xff) as u8);
    assert(s[3] == ((bits >> 24u64) & 0xff) as u8);
    assert(s[4] == ((bits >> 32u64) & 0xff) as u8);
    assert(s[5] == ((bits >> 40u64) & 0xff) as u8);
    assert(s[6] == ((bits >> 48u64) & 0xff) as u8);
    assert(s[7] == ((bits >> 56u64) & 0xff) as u8);
    assert((((bits >> 0u64) & 0xff) as u8 as u64) | ((((bits >> 8u64) & 0xff) as u8 as u64)
        << 8u64) | ((((bits >> 16u64) & 0xff) as u8 as u64) << 16u64) | ((((bits >> 24u64)
        & 0xff) as u8 as u64) << 24u64) | ((((bits >> 32u64) & 0xff) as u8 as u64) << 32u64) | ((((
    bits >> 40u64) & 0xff) as u8 as u64) << 40u64) | ((((bits >> 48u64) & 0xff) as u8 as u64)
        << 48u64) | ((((bits >> 56u64) & 0xff) as u8 as u64) << 56u64) == bits) by (bit_vector);
}

} // verus!
