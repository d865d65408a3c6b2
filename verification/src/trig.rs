//! Rational approximations of sine and cosine of a fraction of a whole turn.
//!
//! The circle rasterizer samples the circumference at phases `num / den` of a
//! turn. Verified code cannot use floating point, so the trigonometric
//! factors are replaced by Bhaskara-style rational approximations, exact at
//! the four cardinal phases: for `u = num / den` in `[0, 1/2]`,
//! `sin(2*pi*u)` is approximated by `32a / (5 - 8a)` with `a = u * (1 - 2u)`,
//! and the second half turn by odd symmetry; the cosine is the sine a
//! quarter turn ahead. Each function returns the numerator and the (always
//! positive) denominator of the approximation, scaled to integers.

use vstd::prelude::*;
use vstd::arithmetic::div_mod::lemma_mod_bound;

verus! {

/// Numerator and denominator of the sine approximation at `num / den` of a
/// turn, for `0 <= num <= den`.
pub open spec fn turn_sin_q(num: int, den: int) -> (int, int)
    recommends
        0 <= num <= den,
        den > 0,
{
    if 2 * num <= den {
        let a = num * (den - 2 * num);
        (32 * a, 5 * (den * den) - 8 * a)
    } else {
        let a = 4 * ((2 * num - den) * (den - num));
        (-32 * a, 20 * (den * den) - 8 * a)
    }
}

/// Numerator and denominator of the cosine approximation at `num / den` of a
/// turn: the sine a quarter turn ahead, with the phase reduced into one turn.
pub open spec fn turn_cos_q(num: int, den: int) -> (int, int)
    recommends
        0 <= num <= den,
        den > 0,
{
    turn_sin_q((4 * num + den) % (4 * den), 4 * den)
}

/// The sine approximation is a fraction with magnitude at most one and a
/// positive denominator bounded by `20 * den^2`.
pub proof fn lemma_turn_sin_q_bounds(num: int, den: int)
    requires
        0 <= num <= den,
        den > 0,
    ensures
        0 < turn_sin_q(num, den).1 <= 20 * (den * den),
        -turn_sin_q(num, den).1 <= turn_sin_q(num, den).0 <= turn_sin_q(num, den).1,
{
    if 2 * num <= den {
        assert(0 <= num * (den - 2 * num) && 8 * (num * (den - 2 * num)) <= den * den)
            by (nonlinear_arith)
            requires
                0 <= num,
                2 * num <= den,
        ;
        assert(den * den > 0) by (nonlinear_arith)
            requires
                den > 0,
        ;
    } else {
        assert(0 <= (2 * num - den) * (den - num) && 8 * ((2 * num - den) * (den - num)) <= den
            * den) by (nonlinear_arith)
            requires
                num <= den,
                2 * num > den,
        ;
        assert(den * den > 0) by (nonlinear_arith)
            requires
                den > 0,
        ;
    }
}

/// The cosine approximation is a fraction with magnitude at most one and a
/// positive denominator bounded by `320 * den^2`.
pub proof fn lemma_turn_cos_q_bounds(num: int, den: int)
    requires
        0 <= num <= den,
        den > 0,
    ensures
        0 < turn_cos_q(num, den).1 <= 320 * (den * den),
        -turn_cos_q(num, den).1 <= turn_cos_q(num, den).0 <= turn_cos_q(num, den).1,
{
    lemma_mod_bound(4 * num + den, 4 * den);
    let m = (4 * num + den) % (4 * den);
    lemma_turn_sin_q_bounds(m, 4 * den);
    assert(20 * ((4 * den) * (4 * den)) == 320 * (den * den)) by (nonlinear_arith);
}

/// The sine approximation, computed exactly in `i128`.
pub fn sin_pair(num: i64, den: i64) -> (r: (i128, i128))
    requires
        0 <= num <= den,
        0 < den <= 0x40_0000_0000,
    ensures
        r.0 == turn_sin_q(num as int, den as int).0,
        r.1 == turn_sin_q(num as int, den as int).1,
{
    let n: i128 = num as i128;
    let d: i128 = den as i128;
    proof {
        assert(0 <= d * d <= 0x1000_0000_0000_0000_0000) by (nonlinear_arith)
            requires
                0 < d <= 0x40_0000_0000,
        ;
    }
    if 2 * n <= d {
        proof {
            assert(0 <= n * (d - 2 * n) && 8 * (n * (d - 2 * n)) <= d * d) by (nonlinear_arith)
                requires
                    0 <= n,
                    2 * n <= d,
            ;
        }
        let a: i128 = n * (d - 2 * n);
        (32 * a, 5 * (d * d) - 8 * a)
    } else {
        proof {
            assert(0 <= (2 * n - d) * (d - n) && 8 * ((2 * n - d) * (d - n)) <= d * d)
                by (nonlinear_arith)
                requires
                    n <= d,
                    2 * n > d,
            ;
        }
        let a: i128 = 4 * ((2 * n - d) * (d - n));
        (-32 * a, 20 * (d * d) - 8 * a)
    }
}

/// The cosine approximation, computed exactly in `i128`.
pub fn cos_pair(num: i64, den: i64) -> (r: (i128, i128))
    requires
        0 <= num <= den,
        0 < den <= 0x10_0000_0000,
    ensures
        r.0 == turn_cos_q(num as int, den as int).0,
        r.1 == turn_cos_q(num as int, den as int).1,
{
    let m: i64 = (4 * num + den) % (4 * den);
    proof {
        lemma_mod_bound(4 * num as int + den as int, 4 * den as int);
    }
    sin_pair(m, 4 * den)
}

} // verus!
