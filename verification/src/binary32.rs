//! IEEE 754 binary32 numbers as bit patterns.
//!
//! A pattern is a `u32`: one sign bit, eight exponent bits, twenty-three
//! fraction bits. This module says which number a pattern denotes and
//! compares patterns by the numbers they denote: the two zeros are equal,
//! and a NaN is neither below, nor above, nor equal to anything.

use vstd::prelude::*;
use vstd::arithmetic::power2::pow2;

verus! {

/// The sign bit; also the pattern of negative zero.
pub const SIGN: u32 = 0x8000_0000;

/// The pattern of positive infinity; every magnitude above it is a NaN.
pub const INFINITY: u32 = 0x7f80_0000;

/// The NaN that every operation here returns when its result is not a number.
pub const QUIET_NAN: u32 = 0x7fc0_0000;

/// The weight of the implicit leading bit of a normal number's significand.
pub const HIDDEN: u32 = 0x0080_0000;

/// The largest finite number.
pub const MAX: u32 = 0x7f7f_ffff;

/// The smallest finite number, the negation of [`MAX`].
pub const MIN: u32 = 0xff7f_ffff;

/// The pattern without its sign bit.
pub open spec fn magnitude(bits: u32) -> nat {
    (bits % SIGN) as nat
}

/// The sign bit is set.
pub open spec fn is_negative(bits: u32) -> bool {
    bits >= SIGN
}

/// The pattern denotes no number.
pub open spec fn spec_is_nan(bits: u32) -> bool {
    magnitude(bits) > INFINITY
}

/// The pattern is one of the two infinities.
pub open spec fn is_infinite(bits: u32) -> bool {
    magnitude(bits) == INFINITY
}

/// The pattern denotes a number that is not an infinity.
pub open spec fn is_finite(bits: u32) -> bool {
    magnitude(bits) < INFINITY
}

/// The exponent field, from 0 to 255.
pub open spec fn exponent(bits: u32) -> nat {
    magnitude(bits) / (HIDDEN as nat)
}

/// The fraction field.
pub open spec fn fraction(bits: u32) -> nat {
    (bits % HIDDEN) as nat
}

/// The significand of a finite number: the fraction, with the implicit
/// leading bit unless the number is subnormal.
pub open spec fn significand(bits: u32) -> nat {
    if exponent(bits) == 0 {
        fraction(bits)
    } else {
        HIDDEN as nat + fraction(bits)
    }
}

/// The power of two by which the significand of a finite number is
/// multiplied, counted from the smallest positive number `2^-149`.
pub open spec fn scale(bits: u32) -> nat {
    if exponent(bits) == 0 {
        0
    } else {
        (exponent(bits) - 1) as nat
    }
}

/// The absolute value of a finite number, in units of `2^-149`.
pub open spec fn scaled_magnitude(bits: u32) -> nat {
    significand(bits) * pow2(scale(bits))
}

/// The value of a finite number, in units of `2^-149`.
pub open spec fn scaled(bits: u32) -> int {
    if is_negative(bits) {
        -(scaled_magnitude(bits) as int)
    } else {
        scaled_magnitude(bits) as int
    }
}

/// The pattern with the given sign and magnitude.
pub open spec fn signed(negative: bool, magnitude: nat) -> u32 {
    if negative {
        (SIGN + magnitude) as u32
    } else {
        magnitude as u32
    }
}

/// An integer that orders the patterns that are not NaN as the numbers they
/// denote are ordered. Both zeros have key 0.
pub open spec fn order_key(bits: u32) -> int {
    if is_negative(bits) {
        -(magnitude(bits) as int)
    } else {
        magnitude(bits) as int
    }
}

/// `a <= b` as numbers: false when either is a NaN.
pub open spec fn spec_le(a: u32, b: u32) -> bool {
    !is_nan(a) && !is_nan(b) && order_key(a) <= order_key(b)
}

/// `a < b` as numbers: false when either is a NaN.
pub open spec fn spec_lt(a: u32, b: u32) -> bool {
    !is_nan(a) && !is_nan(b) && order_key(a) < order_key(b)
}

/// `a == b` as numbers: the zeros are equal, a NaN equals nothing.
pub open spec fn spec_same_number(a: u32, b: u32) -> bool {
    !is_nan(a) && !is_nan(b) && order_key(a) == order_key(b)
}

/// The smaller of two numbers; a NaN is passed over in favour of the other
/// argument, and of two equal numbers the first is kept.
pub open spec fn spec_minimum(a: u32, b: u32) -> u32 {
    if is_nan(b) {
        a
    } else if is_nan(a) || spec_lt(b, a) {
        b
    } else {
        a
    }
}

/// The larger of two numbers; a NaN is passed over in favour of the other
/// argument, and of two equal numbers the first is kept.
pub open spec fn spec_maximum(a: u32, b: u32) -> u32 {
    if is_nan(b) {
        a
    } else if is_nan(a) || spec_lt(a, b) {
        b
    } else {
        a
    }
}

/// The order key of a pattern that is not a NaN.
fn key(bits: u32) -> (k: i64)
    requires
        !is_nan(bits),
    ensures
        k == order_key(bits),
{
    if bits >= SIGN {
        -((bits - SIGN) as i64)
    } else {
        bits as i64
    }
}

/// Whether the pattern denotes no number.
#[verifier::when_used_as_spec(spec_is_nan)]
pub fn is_nan(bits: u32) -> (r: bool)
    ensures
        r == spec_is_nan(bits),
{
    bits % SIGN > INFINITY
}

/// Whether `a <= b` as numbers.
#[verifier::when_used_as_spec(spec_le)]
pub fn le(a: u32, b: u32) -> (r: bool)
    ensures
        r == spec_le(a, b),
{
    !is_nan(a) && !is_nan(b) && key(a) <= key(b)
}

/// Whether `a < b` as numbers.
#[verifier::when_used_as_spec(spec_lt)]
pub fn lt(a: u32, b: u32) -> (r: bool)
    ensures
        r == spec_lt(a, b),
{
    !is_nan(a) && !is_nan(b) && key(a) < key(b)
}

/// Whether `a == b` as numbers.
#[verifier::when_used_as_spec(spec_same_number)]
pub fn same_number(a: u32, b: u32) -> (r: bool)
    ensures
        r == spec_same_number(a, b),
{
    !is_nan(a) && !is_nan(b) && key(a) == key(b)
}

/// The smaller of two numbers, passing over a NaN.
#[verifier::when_used_as_spec(spec_minimum)]
pub fn minimum(a: u32, b: u32) -> (r: u32)
    ensures
        r == spec_minimum(a, b),
{
    if is_nan(b) {
        a
    } else if is_nan(a) || lt(b, a) {
        b
    } else {
        a
    }
}

/// The larger of two numbers, passing over a NaN.
#[verifier::when_used_as_spec(spec_maximum)]
pub fn maximum(a: u32, b: u32) -> (r: u32)
    ensures
        r == spec_maximum(a, b),
{
    if is_nan(b) {
        a
    } else if is_nan(a) || lt(a, b) {
        b
    } else {
        a
    }
}

} // verus!
