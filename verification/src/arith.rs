//! Exact integer arithmetic used by the rasterizers: rounded division of a
//! product (`round(n / d)` with ties away from zero) and a rounded integer
//! square root. Both come with the lemmas the drawing routines need.

use vstd::prelude::*;
use vstd::arithmetic::div_mod::{
    lemma_div_is_ordered, lemma_div_pos_is_pos, lemma_fundamental_div_mod_converse,
};
use vstd::arithmetic::mul::lemma_mul_inequality;

verus! {

/// `round(n / d)` with ties rounded away from zero, for `d > 0`.
pub open spec fn rnd_div(n: int, d: int) -> int
    recommends
        d > 0,
{
    if n >= 0 {
        (2 * n + d) / (2 * d)
    } else {
        -((2 * (-n) + d) / (2 * d))
    }
}

/// Rounding zero gives zero.
pub proof fn lemma_rnd_div_zero(d: int)
    requires
        d > 0,
    ensures
        rnd_div(0, d) == 0,
{
    lemma_fundamental_div_mod_converse(d, 2 * d, 0, d);
}

/// An exact multiple of the divisor rounds to the exact quotient.
pub proof fn lemma_rnd_div_exact(q: int, d: int)
    requires
        d > 0,
    ensures
        rnd_div(q * d, d) == q,
{
    if q >= 0 {
        assert(2 * (q * d) + d == q * (2 * d) + d) by (nonlinear_arith);
        assert(q * d >= 0) by (nonlinear_arith)
            requires
                q >= 0,
                d > 0,
        ;
        lemma_fundamental_div_mod_converse(2 * (q * d) + d, 2 * d, q, d);
    } else {
        assert(2 * (-(q * d)) + d == (-q) * (2 * d) + d) by (nonlinear_arith);
        assert(q * d < 0) by (nonlinear_arith)
            requires
                q < 0,
                d > 0,
        ;
        lemma_fundamental_div_mod_converse(2 * (-(q * d)) + d, 2 * d, -q, d);
    }
}

/// `|n| <= k * d` bounds the rounded quotient by `k`.
pub proof fn lemma_rnd_div_bound(n: int, d: int, k: int)
    requires
        d > 0,
        k >= 0,
        -(k * d) <= n <= k * d,
    ensures
        -k <= rnd_div(n, d) <= k,
        n >= 0 ==> 0 <= rnd_div(n, d),
        n <= 0 ==> rnd_div(n, d) <= 0,
{
    assert(2 * (k * d) + d == k * (2 * d) + d) by (nonlinear_arith);
    assert(k * d >= 0) by (nonlinear_arith)
        requires
            k >= 0,
            d > 0,
    ;
    lemma_fundamental_div_mod_converse(2 * (k * d) + d, 2 * d, k, d);
    if n == 0 {
        lemma_fundamental_div_mod_converse(d, 2 * d, 0, d);
    }
    if n >= 0 {
        lemma_div_pos_is_pos(2 * n + d, 2 * d);
        lemma_div_is_ordered(2 * n + d, 2 * (k * d) + d, 2 * d);
    } else {
        lemma_div_pos_is_pos(2 * (-n) + d, 2 * d);
        lemma_div_is_ordered(2 * (-n) + d, 2 * (k * d) + d, 2 * d);
    }
}

/// The rounded interpolation step `round(v * i / s)` stays between `0` and
/// `v`, whichever sign `v` has, while `0 <= i <= s`.
pub proof fn lemma_rnd_div_interp(v: int, i: int, s: int)
    requires
        s > 0,
        0 <= i <= s,
    ensures
        v >= 0 ==> 0 <= rnd_div(v * i, s) <= v,
        v < 0 ==> v <= rnd_div(v * i, s) <= 0,
{
    if v >= 0 {
        lemma_mul_inequality(i, s, v);
        assert(v * i == i * v && v * s == s * v) by (nonlinear_arith);
        assert(v * i >= 0) by (nonlinear_arith)
            requires
                v >= 0,
                i >= 0,
        ;
        lemma_rnd_div_bound(v * i, s, v);
    } else {
        lemma_mul_inequality(i, s, -v);
        assert((-v) * i == i * (-v) && -(v * i) == (-v) * i && (-v) * s == s * (-v))
            by (nonlinear_arith);
        assert(v * i <= 0) by (nonlinear_arith)
            requires
                v < 0,
                i >= 0,
        ;
        lemma_rnd_div_bound(v * i, s, -v);
    }
}

/// Rounded division of `n` by `d`, ties away from zero, computed exactly in
/// `i128`.
pub fn rdiv(n: i128, d: i128) -> (r: i128)
    requires
        d > 0,
        2 * d <= i128::MAX,
        2 * n + d <= i128::MAX,
        2 * (-n) + d <= i128::MAX,
    ensures
        r == rnd_div(n as int, d as int),
{
    if n >= 0 {
        (2 * n + d) / (2 * d)
    } else {
        let m: i128 = -n;
        -((2 * m + d) / (2 * d))
    }
}

/// Whether `rq` is the integer nearest to the real square root of `n`
/// (ties cannot arise: `4 * n` is even while the squared odd bounds are odd).
pub open spec fn is_rounded_sqrt(rq: int, n: int) -> bool {
    &&& rq >= 0
    &&& 4 * n < (2 * rq + 1) * (2 * rq + 1)
    &&& rq > 0 ==> (2 * rq - 1) * (2 * rq - 1) <= 4 * n
}

/// The integer nearest to the real square root of `n`, by binary search for
/// the floor root followed by the half-point test.
pub fn rounded_sqrt(n: u64) -> (r: u64)
    requires
        n <= 0x7fff_ffff_ffff_ffff,
    ensures
        is_rounded_sqrt(r as int, n as int),
{
    let mut lo: u64 = 0;
    let mut hi: u64 = 3_037_000_500;
    assert((hi as int) * (hi as int) > n as int) by (nonlinear_arith)
        requires
            hi == 3_037_000_500,
            n <= 0x7fff_ffff_ffff_ffff,
    ;
    while lo + 1 < hi
        invariant
            0 <= lo < hi <= 3_037_000_500,
            (lo as int) * (lo as int) <= n as int,
            (hi as int) * (hi as int) > n as int,
            n <= 0x7fff_ffff_ffff_ffff,
        decreases hi - lo,
    {
        let mid: u64 = lo + (hi - lo) / 2;
        assert(mid * mid <= 3_037_000_500 * 3_037_000_500) by (nonlinear_arith)
            requires
                0 <= mid <= 3_037_000_500,
        ;
        if mid * mid <= n {
            lo = mid;
        } else {
            hi = mid;
        }
    }
    let s: u64 = lo;
    assert(s * s + s + 1 <= u64::MAX) by (nonlinear_arith)
        requires
            0 <= s <= 3_037_000_500,
    ;
    let r: u64 = if n >= s * s + s + 1 {
        s + 1
    } else {
        s
    };
    proof {
        let si = s as int;
        let ni = n as int;
        if ni >= si * si + si + 1 {
            assert(4 * ni < (2 * (si + 1) + 1) * (2 * (si + 1) + 1)
                && (2 * (si + 1) - 1) * (2 * (si + 1) - 1) <= 4 * ni) by (nonlinear_arith)
                requires
                    si * si + si + 1 <= ni,
                    ni < (si + 1) * (si + 1),
            ;
        } else {
            assert(4 * ni < (2 * si + 1) * (2 * si + 1)
                && (si > 0 ==> (2 * si - 1) * (2 * si - 1) <= 4 * ni)) by (nonlinear_arith)
                requires
                    si * si <= ni,
                    ni <= si * si + si,
            ;
        }
    }
    r
}

} // verus!
