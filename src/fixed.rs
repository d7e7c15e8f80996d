//! Fixed-point scalars: an `i64` counts units of `1 / ONE`.
use vstd::prelude::*;

verus! {

/// The raw value of the scalar 1.0.
pub const ONE: i64 = 65536;

/// The largest magnitude of a raw scalar (4096.0); results saturate here.
pub const LIMIT: i64 = 268435456;

/// Whether a raw value lies in the representable range.
pub open spec fn in_range(v: int) -> bool {
    -LIMIT <= v <= LIMIT
}

/// Saturate an exact value into the representable range.
pub open spec fn sat(v: int) -> int {
    if v > LIMIT {
        LIMIT as int
    } else if v < -LIMIT {
        -LIMIT
    } else {
        v
    }
}

/// The product of two scalars, rounded down, saturated.
pub open spec fn mul_spec(a: int, b: int) -> int {
    sat((a * b) / (ONE as int))
}

/// Whether `r` is the integer square root of `n`.
pub open spec fn is_isqrt(n: int, r: int) -> bool {
    0 <= r && r * r <= n < (r + 1) * (r + 1)
}

/// The integer square root: the largest `r` with `r * r <= n`.
pub open spec fn isqrt_spec(n: int) -> int {
    choose|r: int| is_isqrt(n, r)
}

proof fn lemma_isqrt_unique(n: int, r1: int, r2: int)
    requires
        is_isqrt(n, r1),
        is_isqrt(n, r2),
    ensures
        r1 == r2,
{
    if r1 < r2 {
        assert((r1 + 1) * (r1 + 1) <= r2 * r2) by (nonlinear_arith)
            requires 0 <= r1, r1 + 1 <= r2;
    } else if r2 < r1 {
        assert((r2 + 1) * (r2 + 1) <= r1 * r1) by (nonlinear_arith)
            requires 0 <= r2, r2 + 1 <= r1;
    }
}

proof fn lemma_isqrt_step(n: int) -> (r: int)
    requires
        n >= 0,
    ensures
        is_isqrt(n, r),
    decreases n,
{
    if n == 0 {
        assert(is_isqrt(0, 0));
        0
    } else {
        let p = lemma_isqrt_step(n - 1);
        if (p + 1) * (p + 1) <= n {
            assert(n < (p + 2) * (p + 2)) by (nonlinear_arith)
                requires n - 1 < (p + 1) * (p + 1), p >= 0;
            assert(is_isqrt(n, p + 1));
            p + 1
        } else {
            assert(p * p <= n);
            assert(n < (p + 1) * (p + 1));
            assert(is_isqrt(n, p));
            p
        }
    }
}

/// Every non-negative integer has an integer square root.
pub proof fn lemma_isqrt_exists(n: int)
    requires
        n >= 0,
    ensures
        is_isqrt(n, isqrt_spec(n)),
{
    let r = lemma_isqrt_step(n);
    lemma_isqrt_is(n, r);
}

/// Any witness of the integer square root is the one `isqrt_spec` names.
pub proof fn lemma_isqrt_is(n: int, r: int)
    requires
        is_isqrt(n, r),
    ensures
        isqrt_spec(n) == r,
{
    let c = isqrt_spec(n);
    assert(is_isqrt(n, c));
    lemma_isqrt_unique(n, r, c);
}

/// A bound on a product from bounds on its factors.
pub proof fn lemma_mul_bound(a: int, b: int, m: int)
    requires
        -m <= a <= m,
        -m <= b <= m,
    ensures
        -m * m <= a * b <= m * m,
{
    assert(-m * m <= a * b <= m * m) by (nonlinear_arith)
        requires -m <= a <= m, -m <= b <= m;
}

/// Dividing by a positive divisor does not increase the magnitude.
pub proof fn lemma_div_bound(n: int, d: int, m: int)
    requires
        d >= 1,
        -m <= n <= m,
    ensures
        -m <= n / d <= m,
{
    vstd::arithmetic::div_mod::lemma_fundamental_div_mod(n, d);
    let q = n / d;
    let r = n % d;
    assert(0 <= r < d);
    assert(-m <= q <= m) by (nonlinear_arith)
        requires n == d * q + r, 0 <= r < d, d >= 1, -m <= n <= m;
}

/// Integer square root of a non-negative `u128`, by bisection.
pub fn isqrt(n: u128) -> (r: u128)
    ensures
        r == isqrt_spec(n as int),
        is_isqrt(n as int, r as int),
        r < 0x1_0000_0000_0000_0000,
{
    let mut lo: u128 = 0;
    let mut hi: u128 = 0x1_0000_0000_0000_0000;
    assert(n < hi * hi) by (nonlinear_arith)
        requires n <= u128::MAX, hi == 0x1_0000_0000_0000_0000u128;
    while hi - lo > 1
        invariant
            lo < hi <= 0x1_0000_0000_0000_0000,
            lo * lo <= n,
            n < hi * hi,
        decreases hi - lo,
    {
        let mid = lo + (hi - lo) / 2;
        assert(mid * mid < 0x1_0000_0000_0000_0000_0000_0000_0000_0000) by (nonlinear_arith)
            requires mid < 0x1_0000_0000_0000_0000int, 0 <= mid;
        if mid * mid <= n {
            lo = mid;
        } else {
            hi = mid;
        }
    }
    proof {
        assert(hi == lo + 1);
        lemma_isqrt_is(n as int, lo as int);
    }
    lo
}

/// Saturate an `i128` into the representable range.
pub fn saturate(v: i128) -> (r: i64)
    ensures
        r == sat(v as int),
        in_range(r as int),
{
    if v > LIMIT as i128 {
        LIMIT
    } else if v < -(LIMIT as i128) {
        -LIMIT
    } else {
        v as i64
    }
}

/// `n / d` rounded down, for a positive divisor.
pub fn div_floor(n: i128, d: i128) -> (r: i128)
    requires
        d > 0,
    ensures
        r == n / d,
{
    match n.checked_div_euclid(d) {
        Some(q) => q,
        None => {
            proof {
                assert(i128::MIN <= n / d <= i128::MAX) by (nonlinear_arith)
                    requires d > 0, i128::MIN <= n <= i128::MAX;
            }
            0
        },
    }
}

/// `n / d` rounded down (towards negative infinity), for any non-zero divisor.
pub open spec fn floor_div(n: int, d: int) -> int {
    if d > 0 {
        n / d
    } else {
        (-n) / (-d)
    }
}

/// `n / d` rounded down, for a non-zero divisor of either sign.
pub fn div_floor_signed(n: i128, d: i128) -> (r: i128)
    requires
        d != 0,
        n > i128::MIN,
        d > i128::MIN,
    ensures
        r == floor_div(n as int, d as int),
{
    if d > 0 {
        div_floor(n, d)
    } else {
        div_floor(-n, -d)
    }
}

/// The product of two scalars, rounded down and saturated.
pub fn mul_fixed(a: i64, b: i64) -> (r: i64)
    ensures
        r == mul_spec(a as int, b as int),
        in_range(r as int),
{
    assert(i128::MIN <= (a as int) * (b as int) <= i128::MAX) by (nonlinear_arith)
        requires i64::MIN <= a <= i64::MAX, i64::MIN <= b <= i64::MAX;
    saturate(div_floor(a as i128 * b as i128, ONE as i128))
}

} // verus!
