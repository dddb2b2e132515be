//! Rounding a natural number to twenty-four significant bits, to nearest with
//! ties to even, and the binary32 magnitude that the rounded number has.

use vstd::prelude::*;
use vstd::arithmetic::power2::{
    pow2, lemma_pow2_pos, lemma_pow2_unfold, lemma_pow2_adds, lemma_pow2_strictly_increases,
    lemma2_to64, lemma2_to64_rest,
};
use vstd::arithmetic::div_mod::{
    lemma_fundamental_div_mod, lemma_fundamental_div_mod_converse, lemma_div_nonincreasing,
    lemma_div_is_ordered, lemma_mod_pos_bound,
};
use vstd::bits::{lemma_u64_shl_is_mul, lemma_u64_pow2_no_overflow};
use crate::binary32::{HIDDEN, INFINITY};

verus! {

/// The number of binary digits of `x`: 0 for 0, else the `n` with
/// `2^(n-1) <= x < 2^n`.
pub open spec fn bit_length(x: nat) -> nat
    decreases x,
{
    if x == 0 {
        0
    } else {
        1 + bit_length(x / 2)
    }
}

/// `x / 2^k` rounded to the nearest integer; halfway cases go to the even
/// neighbour.
pub open spec fn round_half_even(x: nat, k: nat) -> nat {
    let q = x / pow2(k);
    let r = x % pow2(k);
    if 2 * r > pow2(k) || (2 * r == pow2(k) && q % 2 == 1) {
        q + 1
    } else {
        q
    }
}

/// The magnitude pattern of the binary32 number nearest to `x * 2^-(149 + s)`,
/// ties to even; infinity where that number is too large to be finite.
///
/// The unit `2^-149` is the smallest positive binary32 number. A number with
/// at most twenty-four digits above the unit is its own pattern; a longer one
/// loses its low `k` digits to rounding and has `k` in the exponent field's
/// place. A significand that rounds up to `2^24` carries into the exponent.
pub open spec fn nearest_magnitude(x: nat, s: nat) -> nat {
    let len = bit_length(x);
    let k = if len > 24 + s { (len - 24) as nat } else { s };
    let bits = (k - s) * HIDDEN + round_half_even(x, k);
    if bits >= INFINITY {
        INFINITY as nat
    } else {
        bits as nat
    }
}

/// A positive number lies between the powers of two that its number of
/// digits names.
pub proof fn lemma_bit_length_bounds(x: nat)
    requires
        x > 0,
    ensures
        bit_length(x) >= 1,
        pow2((bit_length(x) - 1) as nat) <= x < pow2(bit_length(x)),
    decreases x,
{
    lemma2_to64();
    assert(bit_length(0) == 0);
    if x / 2 > 0 {
        lemma_bit_length_bounds(x / 2);
        lemma_pow2_unfold(bit_length(x / 2));
        lemma_pow2_unfold(bit_length(x));
        assert((bit_length(x) - 1) as nat == bit_length(x / 2));
    }
}

/// A number between `2^(n-1)` and `2^n` has `n` digits.
pub proof fn lemma_bit_length_unique(x: nat, n: nat)
    requires
        n >= 1,
        pow2((n - 1) as nat) <= x < pow2(n),
    ensures
        bit_length(x) == n,
    decreases n,
{
    lemma2_to64();
    lemma_pow2_pos((n - 1) as nat);
    assert(bit_length(0) == 0);
    if n > 1 {
        lemma_pow2_unfold(n);
        lemma_pow2_unfold((n - 1) as nat);
        lemma_bit_length_unique(x / 2, (n - 1) as nat);
    }
}

/// A multiplication by `2^i` appends `i` digits.
pub proof fn lemma_bit_length_shift(x: nat, i: nat)
    requires
        x > 0,
    ensures
        bit_length(x * pow2(i)) == bit_length(x) + i,
    decreases i,
{
    lemma2_to64();
    if i > 0 {
        lemma_pow2_unfold(i);
        let y = x * pow2((i - 1) as nat);
        lemma_pow2_pos((i - 1) as nat);
        assert(x * pow2(i) == 2 * y) by (nonlinear_arith)
            requires
                pow2(i) == 2 * pow2((i - 1) as nat),
                y == x * pow2((i - 1) as nat),
        ;
        assert(y > 0) by (nonlinear_arith)
            requires
                x > 0,
                pow2((i - 1) as nat) > 0,
                y == x * pow2((i - 1) as nat),
        ;
        lemma_bit_length_shift(x, (i - 1) as nat);
        assert((2 * y) / 2 == y);
    } else {
        assert(x * pow2(0) == x) by (nonlinear_arith)
            requires
                pow2(0) == 1,
        ;
    }
}

/// Rounding one more digit of the double away gives the same.
proof fn lemma_round_double(x: nat, k: nat)
    requires
        k >= 1,
    ensures
        round_half_even(2 * x, k) == round_half_even(x, (k - 1) as nat),
{
    let d = pow2((k - 1) as nat);
    lemma_pow2_pos((k - 1) as nat);
    lemma_pow2_unfold(k);
    let q = x as int / d as int;
    let r = x as int % d as int;
    lemma_fundamental_div_mod(x as int, d as int);
    assert(2 * x == q * (2 * d) + 2 * r) by (nonlinear_arith)
        requires
            x == d * q + r,
    ;
    lemma_fundamental_div_mod_converse(2 * x as int, 2 * d as int, q, 2 * r);
}

/// Digits that a multiplication by a power of two appended are the first to
/// be rounded away, and rounding them away is exact.
pub proof fn lemma_round_shift(x: nat, i: nat, k: nat)
    requires
        i <= k,
    ensures
        round_half_even(x * pow2(i), k) == round_half_even(x, (k - i) as nat),
    decreases i,
{
    lemma2_to64();
    if i > 0 {
        lemma_pow2_unfold(i);
        let y = x * pow2((i - 1) as nat);
        assert(x * pow2(i) == 2 * y) by (nonlinear_arith)
            requires
                pow2(i) == 2 * pow2((i - 1) as nat),
                y == x * pow2((i - 1) as nat),
        ;
        lemma_round_double(y, k);
        lemma_round_shift(x, (i - 1) as nat, (k - 1) as nat);
    } else {
        assert(x * pow2(0) == x) by (nonlinear_arith)
            requires
                pow2(0) == 1,
        ;
    }
}

/// Rounding no digit away changes nothing.
pub proof fn lemma_round_zero_digits(x: nat)
    ensures
        round_half_even(x, 0) == x,
{
    lemma2_to64();
}

/// A larger number has no fewer digits.
pub proof fn lemma_bit_length_increases(x: nat, y: nat)
    requires
        x <= y,
    ensures
        bit_length(x) <= bit_length(y),
    decreases y,
{
    if x > 0 {
        lemma_bit_length_increases(x / 2, y / 2);
    }
}

/// Rounding at a fixed digit keeps the order of numbers.
pub proof fn lemma_round_increases(x: nat, y: nat, k: nat)
    requires
        x <= y,
    ensures
        round_half_even(x, k) <= round_half_even(y, k),
{
    let d = pow2(k) as int;
    lemma_pow2_pos(k);
    lemma_div_is_ordered(x as int, y as int, d);
    lemma_fundamental_div_mod(x as int, d);
    lemma_fundamental_div_mod(y as int, d);
    lemma_mod_pos_bound(x as int, d);
    lemma_mod_pos_bound(y as int, d);
}

/// A number below `2^(24 + k)` rounds, at digit `k`, to at most `2^24`; one
/// that is at least `2^(23 + k)` rounds to at least `2^23`.
pub proof fn lemma_round_bounds(x: nat, k: nat)
    ensures
        x < pow2(24 + k) ==> round_half_even(x, k) <= 0x100_0000,
        x >= pow2(23 + k) ==> round_half_even(x, k) >= 0x80_0000,
{
    lemma2_to64();
    let d = pow2(k) as int;
    let q = x as int / d;
    let r = x as int % d;
    lemma_pow2_pos(k);
    lemma_pow2_adds(24, k);
    lemma_pow2_adds(23, k);
    lemma_fundamental_div_mod(x as int, d);
    lemma_mod_pos_bound(x as int, d);
    if x < pow2(24 + k) && q >= 0x100_0000 {
        assert(d * q >= 0x100_0000 * d) by (nonlinear_arith)
            requires
                q >= 0x100_0000,
                d > 0,
        ;
    }
    if x >= pow2(23 + k) && q < 0x80_0000 {
        assert(d * q + d <= 0x80_0000 * d) by (nonlinear_arith)
            requires
                q < 0x80_0000,
                d > 0,
        ;
    }
}

/// A larger number has no smaller nearest magnitude.
pub proof fn lemma_nearest_increases(x: nat, y: nat, s: nat)
    requires
        x <= y,
    ensures
        nearest_magnitude(x, s) <= nearest_magnitude(y, s),
{
    let lx = bit_length(x);
    let ly = bit_length(y);
    lemma_bit_length_increases(x, y);
    let kx = if lx > 24 + s { (lx - 24) as nat } else { s };
    let ky = if ly > 24 + s { (ly - 24) as nat } else { s };
    if kx == ky {
        lemma_round_increases(x, y, kx);
    } else {
        assert(x > 0 ==> x < pow2(lx)) by {
            if x > 0 {
                lemma_bit_length_bounds(x);
            }
        }
        assert(bit_length(0) == 0);
        lemma_pow2_pos(24 + kx);
        if lx < 24 + kx {
            lemma_pow2_strictly_increases(lx, 24 + kx);
        }
        lemma_bit_length_bounds(y);
        assert(23 + ky == ly - 1);
        lemma_round_bounds(x, kx);
        lemma_round_bounds(y, ky);
    }
}

/// `2^k` as a machine integer.
pub(crate) fn power_of_two(k: u32) -> (r: u64)
    requires
        k < 64,
    ensures
        r == pow2(k as nat),
{
    proof {
        lemma_u64_pow2_no_overflow(k as nat);
        lemma_u64_shl_is_mul(1, k as u64);
    }
    1u64 << (k as u64)
}

/// The number of binary digits of `n`.
pub(crate) fn count_digits(n: u64) -> (r: u32)
    ensures
        r == bit_length(n as nat),
        r <= 64,
{
    let mut m: u64 = n;
    let mut r: u32 = 0;
    proof {
        lemma2_to64();
        lemma2_to64_rest();
    }
    while m > 0
        invariant
            r <= 64,
            m < pow2((64 - r) as nat),
            bit_length(n as nat) == r + bit_length(m as nat),
        decreases m,
    {
        proof {
            lemma2_to64();
            if r < 64 {
                lemma_pow2_unfold((64 - r) as nat);
            }
        }
        m = m / 2;
        r = r + 1;
    }
    r
}

/// `n / 2^k`, rounded to nearest, ties to even.
pub(crate) fn round_digits_away(n: u64, k: u32) -> (r: u64)
    requires
        n < 0x4000_0000_0000_0000,
        k < 63,
    ensures
        r == round_half_even(n as nat, k as nat),
{
    let d: u64 = power_of_two(k);
    proof {
        lemma_pow2_pos(k as nat);
    }
    let q: u64 = n / d;
    let rest: u64 = n % d;
    proof {
        lemma_div_nonincreasing(n as int, d as int);
    }
    if rest > d - rest || (rest == d - rest && q % 2 == 1) {
        q + 1
    } else {
        q
    }
}

/// The binary32 magnitude nearest to `n * 2^j * 2^-(149 + s)`.
pub(crate) fn round_scaled(n: u64, j: u32, s: u32) -> (r: u32)
    requires
        0 < n < 0x100_0000_0000_0000,
        j <= 254,
        s <= 1,
    ensures
        r == nearest_magnitude(n as nat * pow2(j as nat), s as nat),
{
    let digits: u32 = count_digits(n);
    let len: u32 = digits + j;
    let ghost x: nat = n as nat * pow2(j as nat);
    proof {
        lemma2_to64();
        lemma2_to64_rest();
        lemma_bit_length_shift(n as nat, j as nat);
        lemma_bit_length_bounds(n as nat);
        lemma_pow2_pos(j as nat);
        assert(x > 0) by (nonlinear_arith)
            requires
                n > 0,
                pow2(j as nat) > 0,
                x == n as nat * pow2(j as nat),
        ;
        lemma_bit_length_bounds(x);
        if digits > 56 {
            lemma_pow2_strictly_increases(56, (digits - 1) as nat);
        }
    }
    if len <= 24 + s {
        proof {
            if len < 25 {
                lemma_pow2_strictly_increases(len as nat, 25);
            }
        }
        let whole: u64 = n * power_of_two(j);
        let q: u64 = round_digits_away(whole, s);
        q as u32
    } else {
        let k: u32 = len - 24;
        let q: u64 = if digits >= 24 {
            proof {
                lemma_round_shift(n as nat, j as nat, k as nat);
            }
            round_digits_away(n, digits - 24)
        } else {
            let up: u32 = 24 - digits;
            let ghost y: nat = n as nat * pow2(up as nat);
            proof {
                lemma_pow2_adds(digits as nat, up as nat);
                lemma_pow2_adds(up as nat, k as nat);
                assert(y < pow2(24)) by (nonlinear_arith)
                    requires
                        n < pow2(digits as nat),
                        pow2(24) == pow2(digits as nat) * pow2(up as nat),
                        y == n as nat * pow2(up as nat),
                        pow2(up as nat) > 0,
                ;
                assert(y * pow2(k as nat) == x) by (nonlinear_arith)
                    requires
                        y == n as nat * pow2(up as nat),
                        x == n as nat * pow2(j as nat),
                        pow2(j as nat) == pow2(up as nat) * pow2(k as nat),
                ;
                lemma_round_shift(y, k as nat, k as nat);
                lemma_round_zero_digits(y);
                lemma_pow2_pos(up as nat);
            }
            n * power_of_two(up)
        };
        let bits: u64 = (k - s) as u64 * (HIDDEN as u64) + q;
        if bits >= INFINITY as u64 {
            INFINITY
        } else {
            bits as u32
        }
    }
}

} // verus!
