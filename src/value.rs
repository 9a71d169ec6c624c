//! Eight-byte little-endian row values.
use vstd::prelude::*;

verus! {

/// The eight little-endian bytes of `v`.
pub open spec fn le_bytes(v: u64) -> Seq<u8> {
    vstd::bytes::spec_u64_to_le_bytes(v)
}

/// The unsigned number held by eight little-endian bytes.
pub open spec fn u64_of(b: Seq<u8>) -> u64 {
    vstd::bytes::spec_u64_from_le_bytes(b)
}

/// The signed number held by eight little-endian bytes.
pub open spec fn i64_of(b: Seq<u8>) -> i64 {
    #[verifier::truncate]
    (vstd::bytes::spec_u64_from_le_bytes(b) as i64)
}

/// Two's complement sum of two signed numbers.
pub open spec fn add_wrapping(a: i64, b: i64) -> i64 {
    if a + b > i64::MAX {
        (a + b - 0x1_0000_0000_0000_0000) as i64
    } else if a + b < i64::MIN {
        (a + b + 0x1_0000_0000_0000_0000) as i64
    } else {
        (a + b) as i64
    }
}

pub proof fn lemma_le_round_trip(v: u64)
    ensures
        le_bytes(v).len() == 8,
        u64_of(le_bytes(v)) == v,
        i64_of(le_bytes(v)) == #[verifier::truncate] (v as i64),
{
    vstd::bytes::lemma_auto_spec_u64_to_from_le_bytes();
}

pub fn encode_u64(v: u64) -> (r: Vec<u8>)
    ensures
        r@ == le_bytes(v),
        r@.len() == 8,
{
    vstd::bytes::u64_to_le_bytes(v)
}

/// The bits of a signed number, read as unsigned.
pub open spec fn bits_of(v: i64) -> u64 {
    #[verifier::truncate]
    (v as u64)
}

pub proof fn lemma_i64_round_trip(v: i64)
    ensures
        i64_of(le_bytes(bits_of(v))) == v,
        le_bytes(bits_of(v)).len() == 8,
{
    let u = bits_of(v);
    lemma_le_round_trip(u);
    assert(#[verifier::truncate] (u as i64) == v) by (bit_vector)
        requires
            u == #[verifier::truncate] (v as u64),
    ;
}

pub fn encode_i64(v: i64) -> (r: Vec<u8>)
    ensures
        r@ == le_bytes(bits_of(v)),
        r@.len() == 8,
        i64_of(r@) == v,
{
    let u: u64 = #[verifier::truncate] (v as u64);
    proof {
        lemma_le_round_trip(u);
        assert(#[verifier::truncate] (u as i64) == v) by (bit_vector)
            requires
                u == #[verifier::truncate] (v as u64),
        ;
    }
    vstd::bytes::u64_to_le_bytes(u)
}

pub fn decode_u64(b: &[u8]) -> (r: u64)
    requires
        b@.len() == 8,
    ensures
        r == u64_of(b@),
{
    vstd::bytes::u64_from_le_bytes(b)
}

pub fn decode_i64(b: &[u8]) -> (r: i64)
    requires
        b@.len() == 8,
    ensures
        r == i64_of(b@),
{
    #[verifier::truncate]
    (vstd::bytes::u64_from_le_bytes(b) as i64)
}

pub fn wrapping_sum(a: i64, b: i64) -> (r: i64)
    ensures
        r == add_wrapping(a, b),
{
    a.wrapping_add(b)
}

} // verus!
