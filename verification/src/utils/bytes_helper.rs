//! Conversions between raw little-endian field bytes and 64-bit integers.

use vstd::prelude::*;
use vstd::bytes::{spec_u64_from_le_bytes, spec_u64_to_le_bytes, u64_from_le_bytes, u64_to_le_bytes};

verus! {

/// The signed value whose two's-complement bit pattern is `u`.
pub open spec fn i64_of_bits(u: u64) -> i64 {
    if u < 0x8000_0000_0000_0000 {
        u as i64
    } else {
        (u - 0x1_0000_0000_0000_0000) as i64
    }
}

/// The two's-complement bit pattern of `x`.
pub open spec fn bits_of_i64(x: i64) -> u64 {
    if x >= 0 {
        x as u64
    } else {
        (x + 0x1_0000_0000_0000_0000) as u64
    }
}

/// The signed 64-bit integer encoded by 8 little-endian bytes.
pub open spec fn spec_i64_from_le_bytes(s: Seq<u8>) -> i64 {
    i64_of_bits(spec_u64_from_le_bytes(s))
}

/// The 8 little-endian bytes of a signed 64-bit integer.
pub open spec fn spec_i64_to_le_bytes(x: i64) -> Seq<u8> {
    spec_u64_to_le_bytes(bits_of_i64(x))
}

/// Reads a signed 64-bit integer from its 8 little-endian bytes, as a
/// `Timestamp` field carries one.
pub fn bytes_to_i64(bytes: Vec<u8>) -> (r: i64)
    requires
        bytes@.len() == 8,
    ensures
        r == spec_i64_from_le_bytes(bytes@),
{
    let u = u64_from_le_bytes(bytes.as_slice());
    if u < 0x8000_0000_0000_0000 {
        u as i64
    } else {
        let offset = u - 0x8000_0000_0000_0000;
        i64::MIN + (offset as i64)
    }
}

/// Writes a signed 64-bit integer as its 8 little-endian bytes.
pub fn i64_to_le_bytes(x: i64) -> (r: Vec<u8>)
    ensures
        r@ == spec_i64_to_le_bytes(x),
        r@.len() == 8,
{
    let u: u64 = if x >= 0 {
        x as u64
    } else {
        let offset = x - i64::MIN;
        0x8000_0000_0000_0000u64 + (offset as u64)
    };
    assert(u == bits_of_i64(x));
    proof {
        vstd::bytes::lemma_auto_spec_u64_to_from_le_bytes();
    }
    u64_to_le_bytes(u)
}

/// Reading 8 little-endian bytes back gives the integer they were written
/// from.
pub broadcast proof fn lemma_i64_le_bytes_round_trip(x: i64)
    ensures
        #[trigger] spec_i64_from_le_bytes(spec_i64_to_le_bytes(x)) == x,
{
    vstd::bytes::lemma_auto_spec_u64_to_from_le_bytes();
}

} // verus!
