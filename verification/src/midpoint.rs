//! The sum, the half and the midpoint of binary32 numbers, each rounded once
//! to nearest with ties to even, as the standard prescribes for `a + b` and
//! for a division by two.

use vstd::prelude::*;
use vstd::arithmetic::power2::{
    pow2, lemma_pow2_pos, lemma_pow2_unfold, lemma_pow2_adds, lemma_pow2_strictly_increases,
    lemma2_to64,
};
use vstd::arithmetic::div_mod::lemma_fundamental_div_mod_converse;
use crate::binary32::{
    SIGN, INFINITY, QUIET_NAN, HIDDEN, magnitude, is_negative, is_nan, is_infinite, is_finite,
    significand, scale, scaled_magnitude, scaled, signed,
};
use crate::rounding::{
    bit_length, nearest_magnitude, lemma_bit_length_unique, power_of_two,
    round_scaled,
};

verus! {

/// `a + b`. The sum of two finite numbers is their exact sum, rounded; an
/// exact zero is negative only if both numbers are. Infinities of opposite
/// signs, and anything with a NaN, give [`QUIET_NAN`].
#[verifier::opaque]
pub open spec fn spec_sum(a: u32, b: u32) -> u32 {
    if is_nan(a) || is_nan(b) {
        QUIET_NAN
    } else if is_infinite(a) {
        if is_infinite(b) && is_negative(a) != is_negative(b) {
            QUIET_NAN
        } else {
            a
        }
    } else if is_infinite(b) {
        b
    } else {
        let x = scaled(a) + scaled(b);
        if x == 0 {
            if is_negative(a) && is_negative(b) {
                SIGN
            } else {
                0
            }
        } else if x < 0 {
            signed(true, nearest_magnitude((-x) as nat, 0))
        } else {
            signed(false, nearest_magnitude(x as nat, 0))
        }
    }
}

/// `a / 2`: half of a finite number, rounded, with the sign of `a`.
#[verifier::opaque]
pub open spec fn spec_half(a: u32) -> u32 {
    if is_nan(a) {
        QUIET_NAN
    } else if is_infinite(a) {
        a
    } else {
        signed(is_negative(a), nearest_magnitude(scaled_magnitude(a), 1))
    }
}

/// `(a + b) / 2`, rounded after the sum and again after the division.
pub open spec fn spec_midpoint(a: u32, b: u32) -> u32 {
    spec_half(spec_sum(a, b))
}

/// Significand and scale of a finite magnitude.
fn split_magnitude(m: u32) -> (r: (u64, u32))
    requires
        m < INFINITY,
    ensures
        r.0 == significand(m),
        r.1 == scale(m),
        r.0 < 2 * HIDDEN,
        r.1 <= 253,
        r.1 > 0 ==> r.0 >= HIDDEN,
        m == r.1 * HIDDEN + r.0,
{
    let e: u32 = m / HIDDEN;
    let f: u32 = m % HIDDEN;
    if e == 0 {
        (f as u64, 0)
    } else {
        ((HIDDEN + f) as u64, e - 1)
    }
}

/// Half of `a`.
#[verifier::when_used_as_spec(spec_half)]
pub fn half(a: u32) -> (r: u32)
    ensures
        r == spec_half(a),
{
    proof {
        reveal(spec_half);
    }
    let m: u32 = a % SIGN;
    let sign: u32 = a - m;
    if m > INFINITY {
        QUIET_NAN
    } else if m == INFINITY {
        a
    } else if m == 0 {
        proof {
            lemma2_to64();
            assert(bit_length(0) == 0);
            assert(0nat * pow2(0) == 0) by (nonlinear_arith);
        }
        a
    } else {
        let (sig, j) = split_magnitude(m);
        sign + round_scaled(sig, j, 1)
    }
}

/// An addend below a 256th of the last digit of `sig * 2^j` does not change
/// what the sum rounds to.
proof fn lemma_small_addend(sig: nat, j: nat, delta: nat, plus: bool)
    requires
        HIDDEN <= sig < 2 * HIDDEN,
        8 <= j <= 253,
        delta < pow2((j - 8) as nat),
    ensures
        sig * pow2(j) > delta,
        nearest_magnitude(
            if plus {
                sig * pow2(j) + delta
            } else {
                (sig * pow2(j) - delta) as nat
            },
            0,
        ) == j * HIDDEN + sig,
{
    lemma2_to64();
    let d = pow2(j);
    let e = pow2((j - 8) as nat);
    let d1 = pow2((j - 1) as nat);
    let e1 = pow2((j - 8) as nat);
    lemma_pow2_adds((j - 8) as nat, 8);
    lemma_pow2_adds((j - 8) as nat, 7);
    lemma_pow2_adds(23, j);
    lemma_pow2_adds(24, j);
    lemma_pow2_adds(23, (j - 1) as nat);
    lemma_pow2_adds(24, (j - 1) as nat);
    lemma_pow2_unfold(j);
    lemma_pow2_pos((j - 8) as nat);
    assert(d == 256 * e);
    assert(d1 == 128 * e);
    let a = sig * d;
    assert(pow2(23) * d <= a && a + d <= pow2(24) * d) by (nonlinear_arith)
        requires
            pow2(23) <= sig < pow2(24),
            a == sig * d,
            d > 0,
    ;
    if plus || delta == 0 {
        let x = a + delta;
        lemma_bit_length_unique(x, 24 + j);
        lemma_fundamental_div_mod_converse(x as int, d as int, sig as int, delta as int);
    } else if sig > HIDDEN {
        let x = (a - delta) as nat;
        assert(x == (sig - 1) * d + (d - delta) && pow2(23) * d <= (sig - 1) * d)
            by (nonlinear_arith)
            requires
                x == a - delta,
                a == sig * d,
                sig > pow2(23),
                d > 0,
        ;
        lemma_bit_length_unique(x, 24 + j);
        lemma_fundamental_div_mod_converse(x as int, d as int, sig - 1, d - delta);
    } else {
        let x = (a - delta) as nat;
        assert(x == 0xff_ffff * d1 + (d1 - delta) && 0x80_0000 * d1 <= 0xff_ffff * d1)
            by (nonlinear_arith)
            requires
                x == a - delta,
                a == sig * d,
                sig == 0x80_0000,
                d == 2 * d1,
                d1 > 0,
        ;
        lemma_bit_length_unique(x, 23 + j);
        lemma_fundamental_div_mod_converse(x as int, d1 as int, pow2(24) - 1, d1 - delta);
    }
}

/// Of two finite magnitudes, the larger has the larger scale, and at equal
/// scales the larger significand.
proof fn lemma_magnitude_order(hi: u32, lo: u32)
    requires
        is_finite(hi),
        is_finite(lo),
        magnitude(hi) >= magnitude(lo),
    ensures
        scale(hi) >= scale(lo),
        scale(hi) <= 253,
        scale(hi) == scale(lo) ==> significand(hi) >= significand(lo),
        scale(hi) > scale(lo) ==> significand(hi) >= HIDDEN,
        significand(hi) < 2 * HIDDEN,
        significand(lo) < 2 * HIDDEN,
        magnitude(hi) == scale(hi) * HIDDEN + significand(hi),
{
}

/// The exact sum of two finite numbers whose scales differ by `d`, as a
/// multiple `n` of the smaller number's unit.
spec fn aligned_sum(hi: u32, lo: u32) -> int {
    let top = significand(hi) * pow2((scale(hi) - scale(lo)) as nat);
    if is_negative(hi) == is_negative(lo) {
        (top + significand(lo)) as int
    } else {
        top - significand(lo)
    }
}

/// The aligned sum is not negative, and it is the magnitude of the exact
/// sum, whose sign is that of the larger number.
proof fn lemma_aligned_sum(hi: u32, lo: u32)
    requires
        is_finite(hi),
        is_finite(lo),
        magnitude(hi) >= magnitude(lo),
    ensures
        aligned_sum(hi, lo) >= 0,
        significand(hi) * pow2((scale(hi) - scale(lo)) as nat) >= significand(lo),
        scaled(hi) + scaled(lo) == if is_negative(hi) {
            -(aligned_sum(hi, lo) * pow2(scale(lo)))
        } else {
            aligned_sum(hi, lo) * pow2(scale(lo))
        },
        aligned_sum(hi, lo) > 0 ==> aligned_sum(hi, lo) * pow2(scale(lo)) > 0,
        aligned_sum(hi, lo) == 0 ==> aligned_sum(hi, lo) * pow2(scale(lo)) == 0,
{
    lemma_magnitude_order(hi, lo);
    lemma2_to64();
    let sh = significand(hi);
    let sl = significand(lo);
    let d = (scale(hi) - scale(lo)) as nat;
    let p = pow2(d);
    let u = pow2(scale(lo));
    let top = sh * p;
    let n = aligned_sum(hi, lo);
    lemma_pow2_adds(d, scale(lo));
    lemma_pow2_pos(scale(lo));
    lemma_pow2_pos(d);
    if d > 0 {
        lemma_pow2_strictly_increases(0, d);
        assert(sh * p >= sl) by (nonlinear_arith)
            requires
                sh >= 0x80_0000,
                sl < 0x100_0000,
                p >= 2,
        ;
    } else {
        assert(sh * p == sh) by (nonlinear_arith)
            requires
                p == 1,
        ;
    }
    assert(scaled_magnitude(hi) == top * u) by (nonlinear_arith)
        requires
            scaled_magnitude(hi) == sh * pow2(scale(hi)),
            pow2(scale(hi)) == p * u,
            top == sh * p,
    ;
    assert((top + sl) * u == top * u + sl * u && (top - sl) * u == top * u - sl * u)
        by (nonlinear_arith);
    assert(n > 0 ==> n * u > 0) by (nonlinear_arith)
        requires
            u > 0,
    ;
    assert(n == 0 ==> n * u == 0) by (nonlinear_arith);
}

/// Where the scales differ by 32 or more, the sum rounds to the larger
/// number.
proof fn lemma_far_apart(hi: u32, lo: u32)
    requires
        is_finite(hi),
        is_finite(lo),
        magnitude(hi) >= magnitude(lo),
        scale(hi) >= scale(lo) + 32,
    ensures
        spec_sum(hi, lo) == hi,
{
    reveal(spec_sum);
    lemma_magnitude_order(hi, lo);
    lemma2_to64();
    let sh = significand(hi);
    let sl = significand(lo);
    let jh = scale(hi);
    let jl = scale(lo);
    let delta = scaled_magnitude(lo);
    lemma_pow2_adds(24, jl);
    lemma_pow2_pos(jl);
    if jl + 24 < jh - 8 {
        lemma_pow2_strictly_increases(jl + 24, (jh - 8) as nat);
    }
    assert(delta < pow2(24) * pow2(jl)) by (nonlinear_arith)
        requires
            delta == sl * pow2(jl),
            sl < pow2(24),
            pow2(jl) > 0,
    ;
    let same = is_negative(hi) == is_negative(lo);
    lemma_small_addend(sh, jh, delta, same);
}

/// The sum of two finite numbers, the first of which is no smaller in
/// magnitude than the second.
fn sum_ordered(hi: u32, lo: u32) -> (r: u32)
    requires
        is_finite(hi),
        is_finite(lo),
        magnitude(hi) >= magnitude(lo),
    ensures
        r == spec_sum(hi, lo),
{
    let mh: u32 = hi % SIGN;
    let ml: u32 = lo % SIGN;
    let sign: u32 = hi - mh;
    let same: bool = (hi >= SIGN) == (lo >= SIGN);
    let (sh, jh) = split_magnitude(mh);
    let (sl, jl) = split_magnitude(ml);
    proof {
        reveal(spec_sum);
        lemma_magnitude_order(hi, lo);
    }
    let d: u32 = jh - jl;
    if d >= 32 {
        proof {
            lemma_far_apart(hi, lo);
        }
        hi
    } else {
        proof {
            lemma2_to64();
            lemma_pow2_pos(d as nat);
            if d < 31 {
                lemma_pow2_strictly_increases(d as nat, 31);
            }
            assert(sh * pow2(d as nat) < 0x80_0000_0000_0000) by (nonlinear_arith)
                requires
                    sh < 0x100_0000,
                    0 < pow2(d as nat) <= 0x8000_0000,
            ;
            lemma_aligned_sum(hi, lo);
        }
        let top: u64 = sh * power_of_two(d);
        let n: u64 = if same {
            top + sl
        } else {
            top - sl
        };
        assert(n == aligned_sum(hi, lo));
        if n == 0 {
            if hi >= SIGN && lo >= SIGN {
                SIGN
            } else {
                0
            }
        } else {
            sign + round_scaled(n, jl, 0)
        }
    }
}

/// The sum of `a` and `b`.
#[verifier::when_used_as_spec(spec_sum)]
pub fn sum(a: u32, b: u32) -> (r: u32)
    ensures
        r == spec_sum(a, b),
{
    proof {
        reveal(spec_sum);
    }
    let ma: u32 = a % SIGN;
    let mb: u32 = b % SIGN;
    if ma > INFINITY || mb > INFINITY {
        QUIET_NAN
    } else if ma == INFINITY {
        if mb == INFINITY && a != b {
            QUIET_NAN
        } else {
            a
        }
    } else if mb == INFINITY {
        b
    } else if ma >= mb {
        sum_ordered(a, b)
    } else {
        sum_ordered(b, a)
    }
}

/// The midpoint of `a` and `b`.
#[verifier::when_used_as_spec(spec_midpoint)]
pub fn midpoint(a: u32, b: u32) -> (r: u32)
    ensures
        r == spec_midpoint(a, b),
{
    half(sum(a, b))
}

} // verus!
