//! Integer rounding used when rescaling model-space box coordinates back
//! into frame pixels: round half away from zero, computed exactly on
//! integers.

use vstd::prelude::*;
use vstd::arithmetic::div_mod::lemma_fundamental_div_mod;

verus! {

/// `num / den` rounded to the nearest integer, halves away from zero.
/// Meaningful only for `den > 0`.
pub open spec fn round_div(num: int, den: int) -> int {
    if num >= 0 {
        (2 * num + den) / (2 * den)
    } else {
        -((2 * -num + den) / (2 * den))
    }
}

/// The result of `round_div` is a nearest integer to the exact quotient
/// `num / den`: it differs from it by at most one half, and a remainder of
/// exactly one half is rounded away from zero.
pub proof fn lemma_round_div_nearest(num: int, den: int)
    requires
        den > 0,
    ensures
        -den <= 2 * (num - round_div(num, den) * den) <= den,
        num >= 0 ==> 2 * (num - round_div(num, den) * den) < den,
        num <= 0 ==> -den < 2 * (num - round_div(num, den) * den),
{
    if num >= 0 {
        lemma_round_div_nearest_nonneg(num, den);
        if num == 0 {
            vstd::arithmetic::div_mod::lemma_basic_div(den, 2 * den);
            assert(round_div(0, den) == 0);
        }
    } else {
        lemma_round_div_nearest_nonneg(-num, den);
        let q = (2 * -num + den) / (2 * den);
        assert(round_div(num, den) == -q);
        assert(2 * (-num - q * den) >= -den);
        assert(2 * (-num - q * den) < den);
        assert(2 * (num - -q * den) <= den) by (nonlinear_arith)
            requires 2 * (-num - q * den) >= -den;
        assert(2 * (num - -q * den) > -den) by (nonlinear_arith)
            requires 2 * (-num - q * den) < den;
    }
}

proof fn lemma_round_div_nearest_nonneg(num: int, den: int)
    requires
        den > 0,
        num >= 0,
    ensures
        -den <= 2 * (num - ((2 * num + den) / (2 * den)) * den) < den,
{
    let x = 2 * num + den;
    let d = 2 * den;
    let q = x / d;
    let m = x % d;
    lemma_fundamental_div_mod(x, d);
    assert(x == d * q + m);
    assert(0 <= m < d);
    assert(2 * (num - q * den) == m - den) by (nonlinear_arith)
        requires 2 * num + den == 2 * den * q + m;
}

/// A crude but convenient bound: rounding a quotient whose numerator is
/// bounded by `b` gives a result bounded by `b + 1`.
pub proof fn lemma_round_div_bound(num: int, den: int, b: int)
    requires
        den > 0,
        -b <= num <= b,
        b >= 0,
    ensures
        -b - 1 <= round_div(num, den) <= b + 1,
{
    lemma_round_div_nearest(num, den);
    let r = round_div(num, den);
    assert(-den <= 2 * (num - r * den) <= den);
    assert(r <= b + 1) by (nonlinear_arith)
        requires den > 0, num <= b, b >= 0, -den <= 2 * (num - r * den);
    assert(r >= -b - 1) by (nonlinear_arith)
        requires den > 0, num >= -b, b >= 0, 2 * (num - r * den) <= den;
}

/// Rounding a nonnegative quotient gives a nonnegative result.
pub proof fn lemma_round_div_nonneg(num: int, den: int)
    requires
        den > 0,
        num >= 0,
    ensures
        round_div(num, den) >= 0,
{
    lemma_round_div_nearest(num, den);
    let r = round_div(num, den);
    assert(r >= 0) by (nonlinear_arith)
        requires den > 0, num >= 0, 2 * (num - r * den) <= den, r == round_div(num, den), -den <= 2 * (num - r * den);
}

/// Executable half-away-from-zero rounded division on 64-bit integers.
pub fn round_div_i64(num: i64, den: i64) -> (r: i64)
    requires
        0 < den <= 0x1000_0000_0000_0000,
        -0x1000_0000_0000_0000 <= num <= 0x1000_0000_0000_0000,
    ensures
        r == round_div(num as int, den as int),
{
    proof {
        lemma_round_div_bound(num as int, den as int, 0x1000_0000_0000_0000);
    }
    if num >= 0 {
        (2 * num + den) / (2 * den)
    } else {
        proof {
            lemma_round_div_nonneg(2 * -(num as int) + den, 2 * den);
            lemma_round_div_bound(-(num as int), den as int, 0x1000_0000_0000_0000);
        }
        -((2 * -num + den) / (2 * den))
    }
}

} // verus!
