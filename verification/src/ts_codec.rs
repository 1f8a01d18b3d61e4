//! Fixed-width big-endian encoding of 64-bit timestamps.
//!
//! Both storage models persist timestamps as eight big-endian bytes, either
//! as a trailer of the physical value or as a suffix of the physical key.

use crate::keyorder::{lemma_lex_first_diff, lemma_lex_le_total, lex_le};
use vstd::prelude::*;

verus! {

/// The eight big-endian bytes of `x`, most significant byte first.
pub open spec fn spec_u64_to_bytes(x: u64) -> Seq<u8> {
    seq![
        (x >> 56) as u8,
        (x >> 48) as u8,
        (x >> 40) as u8,
        (x >> 32) as u8,
        (x >> 24) as u8,
        (x >> 16) as u8,
        (x >> 8) as u8,
        x as u8,
    ]
}

/// The unsigned 64-bit value read from eight big-endian bytes.
pub open spec fn spec_bytes_to_u64(s: Seq<u8>) -> u64
    recommends
        s.len() == 8,
{
    (((s[0] as u64) << 56) | ((s[1] as u64) << 48) | ((s[2] as u64) << 40) | ((s[3] as u64)
        << 32) | ((s[4] as u64) << 24) | ((s[5] as u64) << 16) | ((s[6] as u64) << 8) | (
    s[7] as u64))
}

/// Decoding inverts encoding: the eight bytes of `x` read back as `x`.
pub proof fn lemma_bytes_round_trip(x: u64)
    ensures
        spec_bytes_to_u64(spec_u64_to_bytes(x)) == x,
{
    assert((((((x >> 56) as u8) as u64) << 56) | ((((x >> 48) as u8) as u64) << 48) | ((((x
        >> 40) as u8) as u64) << 40) | ((((x >> 32) as u8) as u64) << 32) | ((((x >> 24) as u8)
        as u64) << 24) | ((((x >> 16) as u8) as u64) << 16) | ((((x >> 8) as u8) as u64) << 8) | (
    ((x as u8) as u64))) == x) by (bit_vector);
}

/// Encoding inverts decoding: any eight bytes are the encoding of the value
/// they decode to.
pub proof fn lemma_bytes_round_trip_rev(s: Seq<u8>)
    requires
        s.len() == 8,
    ensures
        spec_u64_to_bytes(spec_bytes_to_u64(s)) == s,
{
    let b0 = s[0];
    let b1 = s[1];
    let b2 = s[2];
    let b3 = s[3];
    let b4 = s[4];
    let b5 = s[5];
    let b6 = s[6];
    let b7 = s[7];
    let x = spec_bytes_to_u64(s);
    assert((x >> 56) as u8 == b0 && (x >> 48) as u8 == b1 && (x >> 40) as u8 == b2 && (x
        >> 32) as u8 == b3 && (x >> 24) as u8 == b4 && (x >> 16) as u8 == b5 && (x >> 8) as u8
        == b6 && x as u8 == b7) by (bit_vector)
        requires
            x == (((b0 as u64) << 56) | ((b1 as u64) << 48) | ((b2 as u64) << 40) | ((b3 as u64)
                << 32) | ((b4 as u64) << 24) | ((b5 as u64) << 16) | ((b6 as u64) << 8) | (
            b7 as u64)),
    ;
    assert(spec_u64_to_bytes(x) =~= s);
}

/// Two distinct timestamps never share an encoding.
pub proof fn lemma_bytes_injective(x: u64, y: u64)
    ensures
        spec_u64_to_bytes(x) == spec_u64_to_bytes(y) ==> x == y,
{
    if spec_u64_to_bytes(x) == spec_u64_to_bytes(y) {
        lemma_bytes_round_trip(x);
        lemma_bytes_round_trip(y);
    }
}

/// Law: the encoding preserves numeric order under lexicographic byte
/// comparison, so a byte-ordered engine keeps versions in timestamp order.
pub proof fn lemma_bytes_order(x: u64, y: u64)
    ensures
        lex_le(spec_u64_to_bytes(x), spec_u64_to_bytes(y)) == (x <= y),
{
    let a = spec_u64_to_bytes(x);
    let b = spec_u64_to_bytes(y);
    if x == y {
        lemma_lex_le_total(a, b);
    } else {
        lemma_bytes_injective(x, y);
        let d: int = if a[0] != b[0] {
            0
        } else if a[1] != b[1] {
            1
        } else if a[2] != b[2] {
            2
        } else if a[3] != b[3] {
            3
        } else if a[4] != b[4] {
            4
        } else if a[5] != b[5] {
            5
        } else if a[6] != b[6] {
            6
        } else {
            7
        };
        if d == 7 && a[7] == b[7] {
            assert(a =~= b);
        }
        assert(forall|i: int| 0 <= i < d ==> a[i] == b[i]);
        lemma_lex_first_diff(a, b, d);
        if d == 0 {
            assert((((x >> 56) as u8) < ((y >> 56) as u8)) == (x < y)) by (bit_vector)
                requires
                    (x >> 56) as u8 != (y >> 56) as u8,
            ;
        } else if d == 1 {
            assert((((x >> 48) as u8) < ((y >> 48) as u8)) == (x < y)) by (bit_vector)
                requires
                    (x >> 56) as u8 == (y >> 56) as u8,
                    (x >> 48) as u8 != (y >> 48) as u8,
            ;
        } else if d == 2 {
            assert((((x >> 40) as u8) < ((y >> 40) as u8)) == (x < y)) by (bit_vector)
                requires
                    (x >> 56) as u8 == (y >> 56) as u8,
                    (x >> 48) as u8 == (y >> 48) as u8,
                    (x >> 40) as u8 != (y >> 40) as u8,
            ;
        } else if d == 3 {
            assert((((x >> 32) as u8) < ((y >> 32) as u8)) == (x < y)) by (bit_vector)
                requires
                    (x >> 56) as u8 == (y >> 56) as u8,
                    (x >> 48) as u8 == (y >> 48) as u8,
                    (x >> 40) as u8 == (y >> 40) as u8,
                    (x >> 32) as u8 != (y >> 32) as u8,
            ;
        } else if d == 4 {
            assert((((x >> 24) as u8) < ((y >> 24) as u8)) == (x < y)) by (bit_vector)
                requires
                    (x >> 56) as u8 == (y >> 56) as u8,
                    (x >> 48) as u8 == (y >> 48) as u8,
                    (x >> 40) as u8 == (y >> 40) as u8,
                    (x >> 32) as u8 == (y >> 32) as u8,
                    (x >> 24) as u8 != (y >> 24) as u8,
            ;
        } else if d == 5 {
            assert((((x >> 16) as u8) < ((y >> 16) as u8)) == (x < y)) by (bit_vector)
                requires
                    (x >> 56) as u8 == (y >> 56) as u8,
                    (x >> 48) as u8 == (y >> 48) as u8,
                    (x >> 40) as u8 == (y >> 40) as u8,
                    (x >> 32) as u8 == (y >> 32) as u8,
                    (x >> 24) as u8 == (y >> 24) as u8,
                    (x >> 16) as u8 != (y >> 16) as u8,
            ;
        } else if d == 6 {
            assert((((x >> 8) as u8) < ((y >> 8) as u8)) == (x < y)) by (bit_vector)
                requires
                    (x >> 56) as u8 == (y >> 56) as u8,
                    (x >> 48) as u8 == (y >> 48) as u8,
                    (x >> 40) as u8 == (y >> 40) as u8,
                    (x >> 32) as u8 == (y >> 32) as u8,
                    (x >> 24) as u8 == (y >> 24) as u8,
                    (x >> 16) as u8 == (y >> 16) as u8,
                    (x >> 8) as u8 != (y >> 8) as u8,
            ;
        } else {
            assert(((x as u8) < (y as u8)) == (x < y)) by (bit_vector)
                requires
                    (x >> 56) as u8 == (y >> 56) as u8,
                    (x >> 48) as u8 == (y >> 48) as u8,
                    (x >> 40) as u8 == (y >> 40) as u8,
                    (x >> 32) as u8 == (y >> 32) as u8,
                    (x >> 24) as u8 == (y >> 24) as u8,
                    (x >> 16) as u8 == (y >> 16) as u8,
                    (x >> 8) as u8 == (y >> 8) as u8,
                    x as u8 != y as u8,
            ;
        }
    }
}

/// Writes `x` as eight big-endian bytes.
pub fn u64_to_bytes(x: u64) -> (r: Vec<u8>)
    ensures
        r@ == spec_u64_to_bytes(x),
{
    let mut r: Vec<u8> = Vec::new();
    r.push((x >> 56) as u8);
    r.push((x >> 48) as u8);
    r.push((x >> 40) as u8);
    r.push((x >> 32) as u8);
    r.push((x >> 24) as u8);
    r.push((x >> 16) as u8);
    r.push((x >> 8) as u8);
    r.push(x as u8);
    assert(r@ =~= spec_u64_to_bytes(x));
    r
}

/// Reads the unsigned 64-bit value held by eight big-endian bytes.
pub fn bytes_to_u64(s: &[u8]) -> (x: u64)
    requires
        s@.len() == 8,
    ensures
        x == spec_bytes_to_u64(s@),
{
    ((s[0] as u64) << 56) | ((s[1] as u64) << 48) | ((s[2] as u64) << 40) | ((s[3] as u64)
        << 32) | ((s[4] as u64) << 24) | ((s[5] as u64) << 16) | ((s[6] as u64) << 8) | (
    s[7] as u64)
}

} // verus!
