//! The midpoint of two finite numbers lies between them, unless their sum
//! is too large to be finite.

use vstd::prelude::*;
use vstd::arithmetic::power2::{
    pow2, lemma_pow2_pos, lemma_pow2_unfold, lemma_pow2_adds, lemma_pow2_strictly_increases,
    lemma2_to64,
};
use crate::binary32::{
    SIGN, INFINITY, HIDDEN, magnitude, is_negative, is_finite, exponent, significand, scale,
    scaled_magnitude, scaled, signed, order_key, le, lt, same_number, is_nan, is_infinite,
};
use crate::rounding::{
    bit_length, round_half_even, nearest_magnitude, lemma_bit_length_bounds,
    lemma_bit_length_unique, lemma_bit_length_shift, lemma_round_shift, lemma_round_zero_digits,
    lemma_nearest_increases,
};
use crate::midpoint::{spec_sum, spec_half, midpoint};

verus! {

/// Rounding is exact on the numbers that binary32 holds: the nearest
/// magnitude to the value of a finite pattern is the pattern, and so is the
/// nearest magnitude to half of twice the value.
pub proof fn lemma_nearest_exact(m: u32)
    requires
        m < INFINITY,
    ensures
        nearest_magnitude(scaled_magnitude(m), 0) == m,
        nearest_magnitude(2 * scaled_magnitude(m), 1) == m,
{
    lemma2_to64();
    let sig = significand(m);
    let j = scale(m);
    let v = scaled_magnitude(m);
    assert(m == j * HIDDEN + sig);
    lemma_round_zero_digits(sig);
    lemma_pow2_unfold(j + 1);
    assert(2 * v == sig * pow2(j + 1)) by (nonlinear_arith)
        requires
            v == sig * pow2(j),
            pow2(j + 1) == 2 * pow2(j),
    ;
    if sig == 0 {
        assert(v == 0 && 2 * v == 0) by (nonlinear_arith)
            requires
                v == sig * pow2(j),
                sig == 0,
        ;
        assert(bit_length(0) == 0);
        assert(round_half_even(0, 0) == 0);
        assert(round_half_even(0, 1) == 0);
    } else {
        lemma_bit_length_shift(sig, j);
        lemma_bit_length_shift(sig, j + 1);
        lemma_round_shift(sig, j, j);
        lemma_round_shift(sig, j + 1, j + 1);
        lemma_bit_length_bounds(sig);
        if j > 0 {
            lemma_bit_length_unique(sig, 24);
        } else {
            if bit_length(sig) > 24 {
                lemma_pow2_strictly_increases(24, (bit_length(sig) - 1) as nat);
            }
            assert(sig * pow2(0) == sig) by (nonlinear_arith)
                requires
                    pow2(0) == 1,
            ;
            assert(sig * pow2(1) == 2 * sig) by (nonlinear_arith)
                requires
                    pow2(1) == 2,
            ;
            lemma_round_shift(sig, 0, 0);
            lemma_round_shift(sig, 1, 1);
        }
    }
}

/// Of two finite magnitudes, the larger pattern denotes the larger value.
pub proof fn lemma_value_increases(x: u32, y: u32)
    requires
        x <= y < INFINITY,
    ensures
        scaled_magnitude(x) <= scaled_magnitude(y),
        x < y ==> scaled_magnitude(x) < scaled_magnitude(y),
{
    lemma2_to64();
    let sx = significand(x);
    let sy = significand(y);
    let jx = scale(x);
    let jy = scale(y);
    let px = pow2(jx);
    lemma_pow2_pos(jx);
    if jx == jy {
        assert(sx * px <= sy * px && (sx < sy ==> sx * px < sy * px)) by (nonlinear_arith)
            requires
                sx <= sy,
                px > 0,
        ;
    } else {
        let d = (jy - jx) as nat;
        lemma_pow2_adds(d, jx);
        lemma_pow2_strictly_increases(0, d);
        assert(sx * px < sy * (pow2(d) * px)) by (nonlinear_arith)
            requires
                sx < 0x100_0000,
                sy >= 0x80_0000,
                pow2(d) >= 2,
                px > 0,
        ;
    }
}

/// Finite numbers are ordered as their values are: the comparison of two
/// patterns is the comparison of the numbers that they denote.
pub proof fn lemma_order_is_by_value(a: u32, b: u32)
    requires
        is_finite(a),
        is_finite(b),
    ensures
        le(a, b) <==> scaled(a) <= scaled(b),
        lt(a, b) <==> scaled(a) < scaled(b),
        same_number(a, b) <==> scaled(a) == scaled(b),
{
    let ma = (a % SIGN) as u32;
    let mb = (b % SIGN) as u32;
    lemma_value_of_magnitude(a);
    lemma_value_of_magnitude(b);
    lemma_value_zero(ma);
    lemma_value_zero(mb);
    if ma <= mb {
        lemma_value_increases(ma, mb);
    } else {
        lemma_value_increases(mb, ma);
    }
}

/// A finite magnitude below the highest exponent has a double among the
/// finite magnitudes.
spec fn doubled(m: u32) -> u32 {
    if exponent(m) == 0 {
        (2 * m) as u32
    } else {
        (m + HIDDEN) as u32
    }
}

/// The double of a magnitude below the highest exponent is finite and
/// denotes twice the value.
proof fn lemma_doubled(m: u32)
    requires
        m < INFINITY - HIDDEN,
    ensures
        doubled(m) < INFINITY,
        scaled_magnitude(doubled(m)) == 2 * scaled_magnitude(m),
{
    lemma2_to64();
    let sig = significand(m);
    let j = scale(m);
    let m2 = doubled(m);
    if exponent(m) == 0 {
        assert(sig * pow2(0) == sig) by (nonlinear_arith)
            requires
                pow2(0) == 1,
        ;
        assert(significand(m2) * pow2(0) == significand(m2)) by (nonlinear_arith)
            requires
                pow2(0) == 1,
        ;
    } else {
        assert(scale(m2) == j + 1);
        assert(significand(m2) == sig);
        lemma_pow2_unfold(j + 1);
        assert(sig * pow2(j + 1) == 2 * (sig * pow2(j))) by (nonlinear_arith)
            requires
                pow2(j + 1) == 2 * pow2(j),
        ;
    }
}

/// The value of a magnitude with the highest finite exponent is at least
/// `2^276`, and the value of every finite magnitude is below `2^277`.
proof fn lemma_value_bounds(m: u32)
    requires
        m < INFINITY,
    ensures
        scaled_magnitude(m) < pow2(277),
        m >= INFINITY - HIDDEN ==> 2 * scaled_magnitude(m) >= pow2(277),
{
    lemma2_to64();
    let sig = significand(m);
    let j = scale(m);
    lemma_pow2_adds(24, 253);
    lemma_pow2_pos(j);
    if j < 253 {
        lemma_pow2_strictly_increases(j, 253);
    }
    assert(sig * pow2(j) < pow2(24) * pow2(253)) by (nonlinear_arith)
        requires
            sig < pow2(24),
            0 < pow2(j) <= pow2(253),
    ;
    if m >= INFINITY - HIDDEN {
        assert(j == 253);
        assert(2 * (sig * pow2(253)) >= pow2(24) * pow2(253)) by (nonlinear_arith)
            requires
                2 * sig >= pow2(24),
                pow2(253) > 0,
        ;
    }
}

/// A number of `2^277` units or more is too large to be finite.
proof fn lemma_overflow(x: nat)
    requires
        x >= pow2(277),
    ensures
        nearest_magnitude(x, 0) == INFINITY,
{
    lemma2_to64();
    let top = pow2(277);
    let h = pow2(23);
    lemma_pow2_strictly_increases(277, 278);
    lemma_bit_length_unique(top, 278);
    lemma_pow2_adds(23, 254);
    lemma_round_shift(h, 254, 254);
    lemma_round_zero_digits(h);
    assert(nearest_magnitude(top, 0) == INFINITY);
    lemma_nearest_increases(top, x, 0);
}

/// The midpoint of two numbers of one sign, as magnitudes: where the sum of
/// `lo <= hi` is finite, half of it lies between them.
proof fn lemma_between_magnitudes(lo: u32, hi: u32)
    requires
        lo <= hi < INFINITY,
        nearest_magnitude(scaled_magnitude(lo) + scaled_magnitude(hi), 0) < INFINITY,
    ensures
        ({
            let s = nearest_magnitude(scaled_magnitude(lo) + scaled_magnitude(hi), 0) as u32;
            lo <= nearest_magnitude(scaled_magnitude(s), 1) <= hi
        }),
{
    let a = scaled_magnitude(lo);
    let b = scaled_magnitude(hi);
    let s = nearest_magnitude(a + b, 0) as u32;
    let v = scaled_magnitude(s);
    lemma_value_increases(lo, hi);
    lemma_nearest_exact(lo);
    lemma_nearest_exact(hi);
    lemma_value_bounds(lo);
    lemma_value_bounds(hi);
    lemma_value_bounds(s);
    // 2a <= v
    if lo >= INFINITY - HIDDEN {
        lemma_overflow(a + b);
    } else {
        lemma_doubled(lo);
        lemma_nearest_exact(doubled(lo));
        lemma_nearest_increases(2 * a, a + b, 0);
        lemma_value_increases(doubled(lo), s);
    }
    assert(2 * a <= v);
    // v <= 2b
    if hi < INFINITY - HIDDEN {
        lemma_doubled(hi);
        lemma_nearest_exact(doubled(hi));
        lemma_nearest_increases(a + b, 2 * b, 0);
        lemma_value_increases(s, doubled(hi));
    }
    assert(v <= 2 * b);
    lemma_nearest_increases(2 * a, v, 1);
    lemma_nearest_increases(v, 2 * b, 1);
}

/// The midpoint of two numbers of opposite signs, as magnitudes: half of
/// the difference is no larger than the larger of the two.
proof fn lemma_below_larger(lo: u32, hi: u32)
    requires
        lo <= hi < INFINITY,
    ensures
        scaled_magnitude(lo) <= scaled_magnitude(hi),
        ({
            let s = nearest_magnitude((scaled_magnitude(hi) - scaled_magnitude(lo)) as nat, 0) as u32;
            s <= hi && nearest_magnitude(scaled_magnitude(s), 1) <= hi
        }),
{
    let a = scaled_magnitude(lo);
    let b = scaled_magnitude(hi);
    lemma_value_increases(lo, hi);
    let s = nearest_magnitude((b - a) as nat, 0) as u32;
    lemma_nearest_exact(hi);
    lemma_nearest_increases((b - a) as nat, b, 0);
    lemma_value_increases(s, hi);
    lemma_nearest_increases(scaled_magnitude(s), 2 * b, 1);
}

/// The sum of two finite numbers, case by case.
proof fn lemma_sum_finite(a: u32, b: u32)
    requires
        is_finite(a),
        is_finite(b),
    ensures
        ({
            let x = scaled(a) + scaled(b);
            &&& x == 0 ==> spec_sum(a, b) == (if is_negative(a) && is_negative(b) {
                SIGN
            } else {
                0u32
            })
            &&& x > 0 ==> spec_sum(a, b) == signed(false, nearest_magnitude(x as nat, 0))
            &&& x < 0 ==> spec_sum(a, b) == signed(true, nearest_magnitude((-x) as nat, 0))
        }),
{
    reveal(spec_sum);
}

/// Half of a finite number.
proof fn lemma_half_finite(a: u32)
    requires
        is_finite(a),
    ensures
        spec_half(a) == signed(is_negative(a), nearest_magnitude(scaled_magnitude(a), 1)),
{
    reveal(spec_half);
}

/// The value of a pattern is that of its magnitude.
proof fn lemma_value_of_magnitude(a: u32)
    ensures
        scaled_magnitude((a % SIGN) as u32) == scaled_magnitude(a),
        scaled_magnitude(0) == 0,
        scaled_magnitude(SIGN) == 0,
        nearest_magnitude(0, 1) == 0,
{
    lemma2_to64();
    assert(0 * pow2(0) == 0) by (nonlinear_arith);
    assert(bit_length(0) == 0);
}

/// A sign and a magnitude up to infinity make the pattern with that sign
/// and that magnitude.
proof fn lemma_signed(negative: bool, m: nat)
    requires
        m <= INFINITY,
    ensures
        magnitude(signed(negative, m)) == m,
        m > 0 ==> is_negative(signed(negative, m)) == negative,
        order_key(signed(negative, m)) == if negative {
            -(m as int)
        } else {
            m as int
        },
{
}

/// The midpoint of two numbers of one sign lies between them.
proof fn lemma_between_same_sign(a: u32, b: u32)
    requires
        is_finite(a),
        is_finite(b),
        le(a, b),
        is_negative(a) == is_negative(b),
        is_finite(spec_sum(a, b)),
    ensures
        le(a, midpoint(a, b)),
        le(midpoint(a, b), b),
{
    let ma = (a % SIGN) as u32;
    let mb = (b % SIGN) as u32;
    let va = scaled_magnitude(a);
    let vb = scaled_magnitude(b);
    let neg = is_negative(a);
    lemma_value_of_magnitude(a);
    lemma_value_of_magnitude(b);
    lemma_sum_finite(a, b);
    let total = spec_sum(a, b);
    lemma_half_finite(total);
    lemma_value_zero(ma);
    lemma_value_zero(mb);
    if va + vb == 0 {
        lemma_signed(neg, 0);
    } else {
        let s = nearest_magnitude(va + vb, 0);
        lemma_signed(neg, s);
        let sm = s as u32;
        lemma_value_of_magnitude(total);
        assert(scaled_magnitude(total) == scaled_magnitude(sm));
        let c = nearest_magnitude(scaled_magnitude(sm), 1);
        if neg {
            lemma_between_magnitudes(mb, ma);
        } else {
            lemma_between_magnitudes(ma, mb);
        }
        lemma_signed(is_negative(total), c);
        if s == 0 {
            assert(c == 0);
        }
    }
}

/// The midpoint of a negative and a positive number lies between them.
proof fn lemma_between_opposite_signs(a: u32, b: u32)
    requires
        is_finite(a),
        is_finite(b),
        is_negative(a),
        !is_negative(b),
    ensures
        le(a, midpoint(a, b)),
        le(midpoint(a, b), b),
{
    let ma = (a % SIGN) as u32;
    let mb = (b % SIGN) as u32;
    let va = scaled_magnitude(a);
    let vb = scaled_magnitude(b);
    lemma_value_of_magnitude(a);
    lemma_value_of_magnitude(b);
    lemma_sum_finite(a, b);
    let total = spec_sum(a, b);
    if vb == va {
        lemma_half_finite(total);
        lemma_signed(false, 0);
    } else {
        let (lo, hi) = if vb > va { (ma, mb) } else { (mb, ma) };
        if hi < lo {
            lemma_value_increases(hi, lo);
        }
        lemma_below_larger(lo, hi);
        let s = nearest_magnitude((scaled_magnitude(hi) - scaled_magnitude(lo)) as nat, 0);
        lemma_signed(vb < va, s);
        lemma_half_finite(total);
        lemma_value_of_magnitude(total);
        let sm = s as u32;
        assert(scaled_magnitude(total) == scaled_magnitude(sm));
        let c = nearest_magnitude(scaled_magnitude(sm), 1);
        lemma_signed(is_negative(total), c);
        if s == 0 {
            assert(c == 0);
        }
    }
}

/// The midpoint of two finite numbers `a <= b` whose sum is finite lies
/// between them.
pub proof fn lemma_midpoint_between(a: u32, b: u32)
    requires
        is_finite(a),
        is_finite(b),
        le(a, b),
        is_finite(spec_sum(a, b)),
    ensures
        le(a, midpoint(a, b)),
        le(midpoint(a, b), b),
{
    if is_negative(a) == is_negative(b) {
        lemma_between_same_sign(a, b);
    } else if is_negative(a) {
        lemma_between_opposite_signs(a, b);
    } else {
        lemma_sum_finite(a, b);
        lemma_value_of_magnitude(a);
        lemma_value_of_magnitude(b);
        lemma_half_finite(0);
        lemma_signed(false, 0);
    }
}

/// Half of a finite number is finite.
pub proof fn lemma_half_is_finite(a: u32)
    requires
        is_finite(a),
    ensures
        is_finite(spec_half(a)),
        is_negative(spec_half(a)) == is_negative(a),
{
    let m = (a % SIGN) as u32;
    let v = scaled_magnitude(a);
    lemma_half_finite(a);
    lemma_value_of_magnitude(a);
    lemma_nearest_exact(m);
    lemma_nearest_increases(v, 2 * v, 1);
    lemma_signed(is_negative(a), nearest_magnitude(v, 1));
}

/// The midpoint of two numbers is a number, unless they are infinities of
/// opposite signs; and it is an infinity of one sign only if neither of
/// them is the infinity of the other sign.
pub proof fn lemma_midpoint_is_number(a: u32, b: u32)
    requires
        !is_nan(a),
        !is_nan(b),
        !(is_infinite(a) && is_infinite(b) && is_negative(a) != is_negative(b)),
    ensures
        !is_nan(midpoint(a, b)),
        is_infinite(midpoint(a, b)) ==> !(is_infinite(a) && is_negative(a) != is_negative(
            midpoint(a, b),
        )) && !(is_infinite(b) && is_negative(b) != is_negative(midpoint(a, b))),
{
    let total = spec_sum(a, b);
    assert(!is_nan(total) && (is_infinite(total) ==> !(is_infinite(a) && is_negative(a)
        != is_negative(total)) && !(is_infinite(b) && is_negative(b) != is_negative(total)))) by {
        reveal(spec_sum);
        if is_finite(a) && is_finite(b) {
            let x = scaled(a) + scaled(b);
            lemma_signed(x < 0, nearest_magnitude((if x < 0 { -x } else { x }) as nat, 0));
        }
    }
    if is_finite(total) {
        lemma_half_is_finite(total);
    } else {
        reveal(spec_half);
    }
}

/// Only the zero magnitude has the value zero.
proof fn lemma_value_zero(m: u32)
    requires
        m < INFINITY,
    ensures
        scaled_magnitude(m) == 0 <==> m == 0,
{
    let sig = significand(m);
    let j = scale(m);
    lemma_pow2_pos(j);
    assert(sig * pow2(j) == 0 <==> sig == 0) by (nonlinear_arith)
        requires
            pow2(j) > 0,
    ;
}

} // verus!
