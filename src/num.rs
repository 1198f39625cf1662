//! Fixed-point scalars. A scalar is an `i64` holding a real number scaled by
//! `ONE`; geometric quantities are kept within `[-LIMIT, LIMIT]` and every
//! operation saturates to that range instead of overflowing.
use vstd::prelude::*;

verus! {

/// The raw value of the real number 1.
pub const ONE: i64 = 65536;

/// The largest magnitude of a stored coordinate (16384 in real units).
pub const LIMIT: i64 = 1073741824;

/// Saturation of an exact result to the representable coordinate range.
pub open spec fn clamp(x: int) -> int {
    if x > LIMIT {
        LIMIT as int
    } else if x < -LIMIT {
        -LIMIT
    } else {
        x
    }
}

/// A raw value within the coordinate range.
pub open spec fn in_range(x: int) -> bool {
    -LIMIT <= x <= LIMIT
}

/// Division rounding toward negative infinity, for any nonzero divisor.
pub open spec fn div_floor(n: int, d: int) -> int {
    if d > 0 {
        n / d
    } else {
        (-n) / (-d)
    }
}

/// Fixed-point product: the exact product rescaled, rounded down, saturated.
pub open spec fn mul_spec(a: int, b: int) -> int {
    clamp((a * b) / (ONE as int))
}

/// Fixed-point quotient: the exact quotient rescaled, rounded down, saturated.
pub open spec fn div_spec(a: int, b: int) -> int {
    clamp(div_floor(a * ONE, b))
}

/// `r` is the integer square root of `n`.
pub open spec fn is_isqrt(n: int, r: int) -> bool {
    0 <= r && r * r <= n < (r + 1) * (r + 1)
}

pub fn clamp_wide(x: i128) -> (r: i64)
    ensures
        r == clamp(x as int),
        in_range(r as int),
{
    if x > LIMIT as i128 {
        LIMIT
    } else if x < -(LIMIT as i128) {
        -LIMIT
    } else {
        x as i64
    }
}

/// Division rounding toward negative infinity.
pub fn floor_div(n: i128, d: i128) -> (r: i128)
    requires
        d != 0,
        n > i128::MIN,
        d > i128::MIN,
    ensures
        r == div_floor(n as int, d as int),
{
    let (nn, dd) = if d > 0 {
        (n, d)
    } else {
        (-n, -d)
    };
    proof {
        lemma_div_bounded(nn as int, dd as int);
    }
    match nn.checked_div_euclid(dd) {
        Some(q) => q,
        None => 0,
    }
}

pub proof fn lemma_div_bounded_pub(n: int, d: int)
    requires
        d > 0,
    ensures
        n >= 0 ==> 0 <= n / d <= n,
        n < 0 ==> n <= n / d < 0,
{
    lemma_div_bounded(n, d);
}

proof fn lemma_div_bounded(n: int, d: int)
    requires
        d > 0,
    ensures
        n >= 0 ==> 0 <= n / d <= n,
        n < 0 ==> n <= n / d < 0,
{
    if n >= 0 {
        assert(0 <= n / d <= n) by (nonlinear_arith)
            requires
                n >= 0,
                d > 0,
        ;
    } else {
        assert(n <= n / d < 0) by (nonlinear_arith)
            requires
                n < 0,
                d > 0,
        ;
    }
}

/// Fixed-point multiplication of two in-range values.
pub fn fx_mul(a: i64, b: i64) -> (r: i64)
    requires
        in_range(a as int),
        in_range(b as int),
    ensures
        r == mul_spec(a as int, b as int),
        in_range(r as int),
{
    proof {
        lemma_mul_in_range(a as int, b as int);
    }
    let p = (a as i128) * (b as i128);
    clamp_wide(floor_div(p, ONE as i128))
}

/// Fixed-point division; `b` must be nonzero.
pub fn fx_div(a: i64, b: i64) -> (r: i64)
    requires
        in_range(a as int),
        in_range(b as int),
        b != 0,
    ensures
        r == div_spec(a as int, b as int),
        in_range(r as int),
{
    clamp_wide(floor_div((a as i128) * (ONE as i128), b as i128))
}

pub proof fn lemma_mul_in_range(a: int, b: int)
    requires
        in_range(a),
        in_range(b),
    ensures
        -0x1000000000000000 <= a * b <= 0x1000000000000000,
{
    assert(-0x1000000000000000 <= a * b <= 0x1000000000000000) by (nonlinear_arith)
        requires
            -0x40000000 <= a <= 0x40000000,
            -0x40000000 <= b <= 0x40000000,
    ;
}

/// Integer square root by bisection.
pub fn isqrt(n: u128) -> (r: u128)
    ensures
        is_isqrt(n as int, r as int),
        r < 0x10000000000000000,
{
    let mut lo: u128 = 0;
    let mut hi: u128 = 0x10000000000000000;
    assert(n < hi * hi) by (nonlinear_arith)
        requires
            hi == 0x10000000000000000u128,
            n <= u128::MAX,
    ;
    while hi - lo > 1
        invariant
            lo < hi <= 0x10000000000000000,
            lo * lo <= n,
            n < hi * hi,
        decreases hi - lo,
    {
        let mid = lo + (hi - lo) / 2;
        assert(mid * mid <= 0xfffffffffffffffe0000000000000001) by (nonlinear_arith)
            requires
                mid < 0x10000000000000000,
        ;
        if mid * mid <= n {
            lo = mid;
        } else {
            hi = mid;
        }
    }
    assert(hi == lo + 1);
    lo
}

/// The integer square root is unique.
pub proof fn lemma_isqrt_unique(n: int, r1: int, r2: int)
    requires
        is_isqrt(n, r1),
        is_isqrt(n, r2),
    ensures
        r1 == r2,
{
    if r1 < r2 {
        assert((r1 + 1) * (r1 + 1) <= r2 * r2) by (nonlinear_arith)
            requires
                0 <= r1 < r2,
        ;
    } else if r2 < r1 {
        assert((r2 + 1) * (r2 + 1) <= r1 * r1) by (nonlinear_arith)
            requires
                0 <= r2 < r1,
        ;
    }
}

pub open spec fn pow2_spec(n: int) -> int
    decreases n,
{
    if n <= 0 {
        1
    } else {
        2 * pow2_spec(n - 1)
    }
}

pub proof fn lemma_pow2_step(n: int)
    requires
        n >= 0,
    ensures
        pow2_spec(n + 1) == 2 * pow2_spec(n),
{
}

/// The integer square root of a nonnegative integer.
pub open spec fn isqrt_spec(n: int) -> int {
    choose|r: int| is_isqrt(n, r)
}

pub proof fn lemma_isqrt_spec(n: int, r: int)
    requires
        is_isqrt(n, r),
    ensures
        isqrt_spec(n) == r,
{
    let c = isqrt_spec(n);
    assert(is_isqrt(n, c));
    lemma_isqrt_unique(n, r, c);
}

/// Every nonnegative integer has an integer square root.
pub proof fn lemma_isqrt_exists(n: int)
    requires
        n >= 0,
    ensures
        is_isqrt(n, isqrt_spec(n)),
    decreases n,
{
    if n == 0 {
        assert(is_isqrt(0, 0));
    } else {
        lemma_isqrt_exists(n - 1);
        let r = isqrt_spec(n - 1);
        if (r + 1) * (r + 1) <= n {
            assert((r + 2) * (r + 2) > n) by (nonlinear_arith)
                requires
                    n - 1 < (r + 1) * (r + 1),
                    r >= 0,
            ;
            assert(is_isqrt(n, r + 1));
        } else {
            assert(is_isqrt(n, r));
        }
    }
}

/// Fixed-point square root of a nonnegative in-range value.
pub fn fx_sqrt(a: i64) -> (r: i64)
    requires
        0 <= a <= LIMIT,
    ensures
        r == isqrt_spec(a * ONE),
        0 <= r <= LIMIT,
{
    assert((a as u128) * (ONE as u128) <= 0x400000000000) by (nonlinear_arith)
        requires
            0 <= a <= 0x40000000,
    ;
    let s = isqrt((a as u128) * (ONE as u128));
    assert(s <= LIMIT) by (nonlinear_arith)
        requires
            s * s <= a * 65536,
            a <= 0x40000000,
            0 <= s,
    ;
    proof {
        lemma_isqrt_spec(a * ONE, s as int);
    }
    s as i64
}

} // verus!
