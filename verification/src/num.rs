//! Rounding of fractions of whole numbers.

use vstd::arithmetic::div_mod::{
    lemma_div_is_ordered, lemma_fundamental_div_mod, lemma_fundamental_div_mod_converse,
};
use vstd::prelude::*;

verus! {

/// `num / den` rounded to the nearest whole number, a tie to the even one.
pub open spec fn half_even(num: int, den: int) -> int
    recommends
        den > 0,
{
    let floor = num / den;
    let twice = 2 * (num % den);
    if twice < den || (twice == den && floor % 2 == 0) {
        floor
    } else {
        floor + 1
    }
}

/// Rounding keeps the order.
pub proof fn half_even_is_monotone(a: int, b: int, den: int)
    requires
        a <= b,
        den > 0,
    ensures
        half_even(a, den) <= half_even(b, den),
{
    lemma_fundamental_div_mod(a, den);
    lemma_fundamental_div_mod(b, den);
    lemma_div_is_ordered(a, b, den);
    if a / den == b / den {
        assert(den * (a / den) == den * (b / den));
    }
}

/// A whole number rounds to itself.
pub proof fn half_even_of_a_multiple(n: int, den: int)
    requires
        den > 0,
    ensures
        half_even(n * den, den) == n,
{
    lemma_fundamental_div_mod_converse(n * den, den, n, 0);
}

/// `num / den` rounded to the nearest whole number, a tie away from zero.
pub open spec fn half_away(num: int, den: int) -> int
    recommends
        den > 0,
{
    if num >= 0 {
        (2 * num + den) / (2 * den)
    } else {
        -((-2 * num + den) / (2 * den))
    }
}

/// `n` where an `i64` can hold it, else the nearest number that one can.
pub open spec fn clamped(n: int) -> i64 {
    if n < i64::MIN {
        i64::MIN
    } else if n > i64::MAX {
        i64::MAX
    } else {
        n as i64
    }
}

pub fn clamp_i64(n: i128) -> (r: i64)
    ensures
        r == clamped(n as int),
{
    if n < -0x8000_0000_0000_0000 {
        i64::MIN
    } else if n > 0x7fff_ffff_ffff_ffff {
        i64::MAX
    } else {
        n as i64
    }
}

/// The whole part and the remainder of a division that rounds down.
pub fn floor_div(num: i128, den: i128) -> (r: (i128, i128))
    requires
        0 < den < 0x2000_0000_0000_0000_0000_0000_0000_0000,
        -0x2000_0000_0000_0000_0000_0000_0000_0000 < num,
    ensures
        r.0 == num as int / den as int,
        r.1 == num as int % den as int,
        0 <= r.1 < den,
        -0x2000_0000_0000_0000_0000_0000_0000_0000 <= r.0,
        num >= 0 ==> 0 <= r.0 <= num,
        num < 0 ==> r.0 < 0,
{
    if num >= 0 {
        let q: i128 = ((num as u128) / (den as u128)) as i128;
        let m: i128 = ((num as u128) % (den as u128)) as i128;
        proof {
            lemma_fundamental_div_mod(num as int, den as int);
            assert(0 <= num as int / den as int <= num as int) by (nonlinear_arith)
                requires
                    num >= 0,
                    den > 0,
            ;
        }
        (q, m)
    } else {
        let n: u128 = (0 - num) as u128;
        let d: u128 = den as u128;
        let q: u128 = n / d;
        let m: u128 = n % d;
        proof {
            lemma_fundamental_div_mod(n as int, d as int);
            assert(0 <= q <= n) by (nonlinear_arith)
                requires
                    q == n as int / d as int,
                    d > 0,
            ;
        }
        if m == 0 {
            proof {
                assert(num as int == (-(q as int)) * (den as int)) by (nonlinear_arith)
                    requires
                        n == d * q,
                        n == -(num as int),
                        d == den,
                ;
                lemma_fundamental_div_mod_converse(num as int, den as int, -(q as int), 0);
                assert(q > 0) by (nonlinear_arith)
                    requires
                        n == d * q,
                        n > 0,
                ;
            }
            (0 - q as i128, 0)
        } else {
            proof {
                assert(num as int == (-(q as int) - 1) * (den as int) + (d - m)) by (
                    nonlinear_arith)
                    requires
                        n == d * q + m,
                        n == -(num as int),
                        d == den,
                ;
                lemma_fundamental_div_mod_converse(
                    num as int,
                    den as int,
                    -(q as int) - 1,
                    (d - m) as int,
                );
            }
            (0 - q as i128 - 1, (d - m) as i128)
        }
    }
}

pub fn round_half_even(num: i128, den: i128) -> (r: i128)
    requires
        0 < den < 0x2000_0000_0000_0000_0000_0000_0000_0000,
        -0x2000_0000_0000_0000_0000_0000_0000_0000 < num
            < 0x2000_0000_0000_0000_0000_0000_0000_0000,
    ensures
        r == half_even(num as int, den as int),
{
    let (floor, m) = floor_div(num, den);
    let even = if floor >= 0 {
        (floor as u128) % 2 == 0
    } else {
        ((0 - floor) as u128) % 2 == 0
    };
    if 2 * m < den || (2 * m == den && even) {
        floor
    } else {
        floor + 1
    }
}

pub fn round_half_away(num: i128, den: i128) -> (r: i128)
    requires
        0 < den < 0x0800_0000_0000_0000_0000_0000_0000_0000,
        -0x0800_0000_0000_0000_0000_0000_0000_0000 < num
            < 0x0800_0000_0000_0000_0000_0000_0000_0000,
    ensures
        r == half_away(num as int, den as int),
        -0x2000_0000_0000_0000_0000_0000_0000_0000 < r
            < 0x2000_0000_0000_0000_0000_0000_0000_0000,
{
    if num >= 0 {
        floor_div(2 * num + den, 2 * den).0
    } else {
        let twice: i128 = 2 * (0 - num);
        0 - floor_div(twice + den, 2 * den).0
    }
}

} // verus!
