//! Ordinal scores.
//!
//! A real-valued score reaches the library as an `i64` whose order is the order
//! of the scores. For an IEEE 754 double that is not a NaN the integer is read
//! off its bit pattern: the magnitude bits, negated where the sign bit is set.
//! Both zeros map to 0, a positive score to a positive integer and a negative
//! score to a negative one.

use vstd::prelude::*;

verus! {

/// The sign bit of a 64-bit pattern.
pub const SIGN_BIT: u64 = 0x8000_0000_0000_0000;

/// The magnitude bits of a 64-bit pattern.
pub const MAGNITUDE_MASK: u64 = 0x7fff_ffff_ffff_ffff;

/// The ordinal of the real score -1: the weight that stands for "no edge".
pub const NO_EDGE: i64 = -0x3ff0_0000_0000_0000;

/// The ordinal of the largest finite double.
pub const CEILING: i64 = 0x7fef_ffff_ffff_ffff;

/// What `ordinal_from_bits` computes: the magnitude, negated under a sign bit.
pub open spec fn ordinal_of(bits: u64) -> int {
    if bits & SIGN_BIT == 0 {
        (bits & MAGNITUDE_MASK) as int
    } else {
        -((bits & MAGNITUDE_MASK) as int)
    }
}

/// The bit pattern that `bits_from_ordinal` returns for an ordinal.
pub open spec fn bits_of(ordinal: int) -> int {
    if ordinal >= 0 {
        ordinal
    } else {
        0x8000_0000_0000_0000 - ordinal
    }
}

/// The ordinal of a bit pattern.
pub fn ordinal_from_bits(bits: u64) -> (w: i64)
    ensures
        w == ordinal_of(bits),
        -0x7fff_ffff_ffff_ffff <= w <= 0x7fff_ffff_ffff_ffff,
{
    let magnitude: u64 = bits & MAGNITUDE_MASK;
    assert(magnitude <= 0x7fff_ffff_ffff_ffff) by (bit_vector)
        requires
            magnitude == bits & 0x7fff_ffff_ffff_ffff,
    ;
    let m: i64 = magnitude as i64;
    if bits & SIGN_BIT == 0 {
        m
    } else {
        -m
    }
}

/// A bit pattern with the given ordinal: the inverse of `ordinal_from_bits` on
/// every pattern but that of negative zero.
pub fn bits_from_ordinal(w: i64) -> (bits: u64)
    requires
        w > i64::MIN,
    ensures
        bits == bits_of(w as int),
        ordinal_of(bits) == w,
{
    if w >= 0 {
        let bits: u64 = w as u64;
        assert(bits & SIGN_BIT == 0 && bits & MAGNITUDE_MASK == bits) by (bit_vector)
            requires
                bits <= 0x7fff_ffff_ffff_ffff,
        ;
        bits
    } else {
        let m: u64 = (-w) as u64;
        let bits: u64 = m | SIGN_BIT;
        assert(bits & SIGN_BIT != 0 && bits & MAGNITUDE_MASK == m && bits == m
            + 0x8000_0000_0000_0000) by (bit_vector)
            requires
                m <= 0x7fff_ffff_ffff_ffff,
                bits == m | 0x8000_0000_0000_0000,
        ;
        bits
    }
}

/// Reading an ordinal off a pattern and writing it back gives the pattern
/// again, unless the pattern is that of negative zero.
pub proof fn lemma_bits_round_trip(bits: u64)
    requires
        bits != SIGN_BIT,
    ensures
        bits_of(ordinal_of(bits)) == bits,
{
    let m = bits & MAGNITUDE_MASK;
    if bits & SIGN_BIT == 0 {
        assert(m == bits) by (bit_vector)
            requires
                m == bits & 0x7fff_ffff_ffff_ffff,
                bits & 0x8000_0000_0000_0000 == 0,
        ;
    } else {
        assert(m + 0x8000_0000_0000_0000 == bits && m != 0) by (bit_vector)
            requires
                m == bits & 0x7fff_ffff_ffff_ffff,
                bits & 0x8000_0000_0000_0000 != 0,
                bits != 0x8000_0000_0000_0000,
        ;
    }
}

/// Among patterns with a clear sign bit the ordinal grows with the pattern;
/// among patterns with a set sign bit it falls; and no pattern with a set sign
/// bit has a greater ordinal than one with a clear sign bit.
pub proof fn lemma_ordinal_order(a: u64, b: u64)
    ensures
        a & SIGN_BIT == 0 && b & SIGN_BIT == 0 ==> (a <= b <==> ordinal_of(a) <= ordinal_of(b)),
        a & SIGN_BIT != 0 && b & SIGN_BIT != 0 ==> (a <= b <==> ordinal_of(a) >= ordinal_of(b)),
        a & SIGN_BIT != 0 && b & SIGN_BIT == 0 ==> ordinal_of(a) <= ordinal_of(b),
{
    let ma = a & MAGNITUDE_MASK;
    let mb = b & MAGNITUDE_MASK;
    assert(a & 0x8000_0000_0000_0000 == 0 ==> a & 0x7fff_ffff_ffff_ffff == a) by (bit_vector);
    assert(b & 0x8000_0000_0000_0000 == 0 ==> b & 0x7fff_ffff_ffff_ffff == b) by (bit_vector);
    assert(a & 0x8000_0000_0000_0000 != 0 ==> (a & 0x7fff_ffff_ffff_ffff) + 0x8000_0000_0000_0000
        == a) by (bit_vector);
    assert(b & 0x8000_0000_0000_0000 != 0 ==> (b & 0x7fff_ffff_ffff_ffff) + 0x8000_0000_0000_0000
        == b) by (bit_vector);
}

} // verus!
