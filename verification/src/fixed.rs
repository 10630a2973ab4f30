//! Exact fixed-point arithmetic: ten million units to the pixel (and to the
//! metre), with the rounding rules that the geometry relies on.

use vstd::prelude::*;

verus! {

/// Units per pixel for sub-pixel coordinates, and units per metre for lengths.
pub const SCALE: i64 = 10_000_000;

/// Half a pixel: the visible half-width of a column.
pub const HALF: i64 = 5_000_000;

/// Corner coordinates closer than this to a whole pixel are snapped onto it.
pub const SNAP_TOLERANCE: i64 = 1_000;

/// Two coordinates that differ by less than this, without being equal, make a
/// quadrilateral too close to singular to classify.
pub const DEGENERATE_TOLERANCE: i64 = 10_000;

/// An edge whose end points are closer than this in x counts as vertical.
pub const VERTICAL_TOLERANCE: i64 = 100;

/// Bias added to lower bounds and taken from upper bounds before rounding, so
/// that exact half-pixel ties fall inside at the bottom and outside at the top.
pub const ROUNDING_BIAS: i64 = 100;

/// Largest magnitude of a sub-pixel coordinate that the rasteriser accepts.
pub const MAX_EXTENT: i64 = 1_000_000_000_000;

/// `v` limited to the range of a 16-bit cell coordinate.
pub open spec fn clamp16(v: int) -> int {
    if v < -32768 {
        -32768
    } else if v > 32767 {
        32767
    } else {
        v
    }
}

/// Largest integer not above `n / d`, for positive `d`.
pub open spec fn floor_ratio(n: int, d: int) -> int
    recommends
        d > 0,
{
    n / d
}

/// Smallest integer not below `n / d`, for positive `d`.
pub open spec fn ceil_ratio(n: int, d: int) -> int
    recommends
        d > 0,
{
    -((-n) / d)
}

/// `n / d` rounded to the nearest integer, halves away from zero, for positive `d`.
pub open spec fn round_ratio(n: int, d: int) -> int
    recommends
        d > 0,
{
    if n >= 0 {
        (2 * n + d) / (2 * d)
    } else {
        -((2 * (-n) + d) / (2 * d))
    }
}

/// `r` is the integer square root of `v`.
pub open spec fn is_int_sqrt(r: int, v: int) -> bool {
    0 <= r && r * r <= v < (r + 1) * (r + 1)
}

/// The integer square root of a natural number: the largest `r` with `r * r <= v`.
pub open spec fn int_sqrt(v: int) -> int
    recommends
        v >= 0,
{
    choose|r: int| is_int_sqrt(r, v)
}

/// Squaring is strictly monotone on the naturals.
pub proof fn lemma_square_monotone(a: int, b: int)
    requires
        0 <= a < b,
    ensures
        a * a < b * b,
{
    assert(a * a <= a * b) by (nonlinear_arith)
        requires
            0 <= a < b,
    ;
    assert(a * b < b * b) by (nonlinear_arith)
        requires
            0 <= a < b,
    ;
}

/// A number has at most one integer square root.
pub proof fn lemma_int_sqrt_unique(r: int, s: int, v: int)
    requires
        is_int_sqrt(r, v),
        is_int_sqrt(s, v),
    ensures
        r == s,
{
    if r < s {
        if r + 1 < s {
            lemma_square_monotone(r + 1, s);
        }
    } else if s < r {
        if s + 1 < r {
            lemma_square_monotone(s + 1, r);
        }
    }
}

/// Whatever satisfies the defining inequality is the integer square root.
pub proof fn lemma_int_sqrt_is(r: int, v: int)
    requires
        is_int_sqrt(r, v),
    ensures
        int_sqrt(v) == r,
{
    let s = choose|s: int| is_int_sqrt(s, v);
    lemma_int_sqrt_unique(r, s, v);
}

/// Every natural number has an integer square root.
pub proof fn lemma_int_sqrt_exists(v: int)
    requires
        v >= 0,
    ensures
        is_int_sqrt(int_sqrt(v), v),
    decreases v,
{
    if v == 0 {
        assert(is_int_sqrt(0, 0));
    } else {
        lemma_int_sqrt_exists(v - 1);
        let r = int_sqrt(v - 1);
        if (r + 1) * (r + 1) <= v {
            assert((r + 2) * (r + 2) > (r + 1) * (r + 1)) by (nonlinear_arith)
                requires
                    r >= 0,
            ;
            assert(is_int_sqrt(r + 1, v));
        } else {
            assert(is_int_sqrt(r, v));
        }
    }
}

/// The integer square root is monotone.
pub proof fn lemma_int_sqrt_monotone(r: int, v: int, s: int, w: int)
    requires
        is_int_sqrt(r, v),
        is_int_sqrt(s, w),
        v <= w,
    ensures
        r <= s,
{
    if s < r {
        if s + 1 < r {
            lemma_square_monotone(s + 1, r);
        }
    }
}

/// Integer square root by bisection.
pub fn isqrt(v: u128) -> (r: u128)
    ensures
        is_int_sqrt(r as int, v as int),
        r as int == int_sqrt(v as int),
        r < 0x1_0000_0000_0000_0000,
{
    let mut lo: u128 = 0;
    let mut hi: u128 = 0x1_0000_0000_0000_0000;
    assert(0x1_0000_0000_0000_0000int * 0x1_0000_0000_0000_0000int > u128::MAX);
    while hi - lo > 1
        invariant
            lo < hi <= 0x1_0000_0000_0000_0000,
            lo * lo <= v,
            v < hi * hi,
        decreases hi - lo,
    {
        let mid: u128 = lo + (hi - lo) / 2;
        assert(mid * mid <= 0xffff_ffff_ffff_ffff * 0xffff_ffff_ffff_ffff) by (nonlinear_arith)
            requires
                0 <= mid <= 0xffff_ffff_ffff_ffff,
        ;
        assert(0xffff_ffff_ffff_ffffint * 0xffff_ffff_ffff_ffffint <= u128::MAX);
        if mid * mid <= v {
            lo = mid;
        } else {
            hi = mid;
        }
    }
    proof {
        assert(hi == lo + 1);
        lemma_int_sqrt_is(lo as int, v as int);
    }
    lo
}

/// `n / d` rounded down, computed on magnitudes.
pub fn floor_div(n: i128, d: i128) -> (q: i128)
    requires
        d > 0,
        -0x4000_0000_0000_0000_0000_0000_0000_0000 <= n <= 0x4000_0000_0000_0000_0000_0000_0000_0000,
        d <= 0x4000_0000_0000_0000_0000_0000_0000_0000,
    ensures
        q == floor_ratio(n as int, d as int),
        n >= 0 ==> 0 <= q <= n,
        n < 0 ==> n <= q <= 0,
{
    if n >= 0 {
        let q: u128 = (n as u128) / (d as u128);
        assert(q <= n) by (nonlinear_arith)
            requires
                q == (n as int) / (d as int),
                n >= 0,
                d > 0,
        ;
        q as i128
    } else {
        let m: u128 = (-n) as u128;
        let dd: u128 = d as u128;
        let q: u128 = (m + dd - 1) / dd;
        assert(q <= m) by (nonlinear_arith)
            requires
                q == ((m + dd - 1) as int) / (dd as int),
                m > 0,
                dd > 0,
        ;
        assert((n as int) / (d as int) == -(((m + dd - 1) as int) / (dd as int))) by (nonlinear_arith)
            requires
                n < 0,
                d > 0,
                m == -n,
                dd == d,
        ;
        -(q as i128)
    }
}

/// `n / d` rounded up, computed on magnitudes.
pub fn ceil_div(n: i128, d: i128) -> (q: i128)
    requires
        d > 0,
        -0x4000_0000_0000_0000_0000_0000_0000_0000 <= n <= 0x4000_0000_0000_0000_0000_0000_0000_0000,
        d <= 0x4000_0000_0000_0000_0000_0000_0000_0000,
    ensures
        q == ceil_ratio(n as int, d as int),
{
    let f: i128 = floor_div(-n, d);
    -f
}

/// `n / d` rounded to the nearest integer, halves away from zero.
pub fn round_div(n: i128, d: i128) -> (q: i128)
    requires
        d > 0,
        -0x1000_0000_0000_0000_0000_0000_0000_0000 <= n <= 0x1000_0000_0000_0000_0000_0000_0000_0000,
        d <= 0x1000_0000_0000_0000_0000_0000_0000_0000,
    ensures
        q == round_ratio(n as int, d as int),
{
    if n >= 0 {
        let a: u128 = 2 * (n as u128) + (d as u128);
        let b: u128 = 2 * (d as u128);
        let q: u128 = a / b;
        assert(q <= a) by (nonlinear_arith)
            requires
                q == (a as int) / (b as int),
                a >= 0,
                b > 0,
        ;
        q as i128
    } else {
        let a: u128 = 2 * ((-n) as u128) + (d as u128);
        let b: u128 = 2 * (d as u128);
        let q: u128 = a / b;
        assert(q <= a) by (nonlinear_arith)
            requires
                q == (a as int) / (b as int),
                a >= 0,
                b > 0,
        ;
        -(q as i128)
    }
}

/// A value limited to the range of a 16-bit cell coordinate.
pub fn saturate16(v: i128) -> (c: i16)
    ensures
        c == clamp16(v as int),
{
    if v < -32768 {
        -32768
    } else if v > 32767 {
        32767
    } else {
        v as i16
    }
}

} // verus!
