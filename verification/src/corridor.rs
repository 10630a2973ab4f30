//! The shape of a corridor: the quadrilateral swept along the segment
//! between two cells at a given half-width.

use crate::coord::{in_extent, snap, snapped, Coord};
use crate::fixed::{
    ceil_ratio, int_sqrt, is_int_sqrt, isqrt, lemma_int_sqrt_exists, lemma_int_sqrt_is,
    lemma_int_sqrt_monotone, SCALE,
};
use crate::raster::{lemma_classify_moved, moved, ParallelogramPixels};
use vstd::prelude::*;

verus! {

/// Largest accepted corridor half-width, in pixels.
pub const MAX_HALF_WIDTH: u64 = 65_535;

/// The magnitude of an integer.
pub open spec fn int_abs(a: int) -> int {
    if a >= 0 {
        a
    } else {
        -a
    }
}

/// `w * SCALE * |d| / sqrt(n)`, rounded towards zero: the share of a
/// half-width of `w` pixels that falls on one axis, for a segment with the
/// component `d` along the other axis and the squared length `n`.
pub open spec fn offset_magnitude(d: int, n: int, w: int) -> int
    recommends
        n > 0,
{
    int_sqrt(((w * int_abs(d) * SCALE) * (w * int_abs(d) * SCALE)) / n)
}

/// The offset, perpendicular to the direction `(dx, dy)`, of a corridor's rim
/// from its centre line, for a half-width of `w` pixels. A segment without
/// length gets the offset of a horizontal one.
pub open spec fn perpendicular(dx: int, dy: int, w: int) -> (int, int) {
    if dx == 0 && dy == 0 {
        (0, w * SCALE)
    } else {
        let n = dx * dx + dy * dy;
        (
            if dy > 0 {
                -offset_magnitude(dy, n, w)
            } else {
                offset_magnitude(dy, n, w)
            },
            if dx >= 0 {
                offset_magnitude(dx, n, w)
            } else {
                -offset_magnitude(dx, n, w)
            },
        )
    }
}

/// The two sides of the corridor of half-width `w` pixels from `p1` to `p2`:
/// each end point moved by the perpendicular offset and against it.
pub open spec fn corridor_sides(p1: Coord<i16>, p2: Coord<i16>, w: int) -> (
    (Coord<i64>, Coord<i64>),
    (Coord<i64>, Coord<i64>),
) {
    let o = perpendicular(p2.x - p1.x, p2.y - p1.y, w);
    (
        (
            Coord { x: (p1.x * SCALE + o.0) as i64, y: (p1.y * SCALE + o.1) as i64 },
            Coord { x: (p1.x * SCALE - o.0) as i64, y: (p1.y * SCALE - o.1) as i64 },
        ),
        (
            Coord { x: (p2.x * SCALE + o.0) as i64, y: (p2.y * SCALE + o.1) as i64 },
            Coord { x: (p2.x * SCALE - o.0) as i64, y: (p2.y * SCALE - o.1) as i64 },
        ),
    )
}

/// The corridor of half-width `w` pixels from `p1` to `p2` as a quadrilateral
/// with snapped corners.
pub open spec fn corridor(p1: Coord<i16>, p2: Coord<i16>, w: int) -> ParallelogramPixels {
    let sides = corridor_sides(p1, p2, w);
    ParallelogramPixels {
        origin_side: (snapped(sides.0.0), snapped(sides.0.1)),
        destination_side: (snapped(sides.1.0), snapped(sides.1.1)),
    }
}

/// A corridor's half-width in whole pixels: the half-width in length units
/// over the length of a pixel, rounded up.
pub open spec fn half_width_px(r_m: u64, m_per_pixel: u64) -> int
    recommends
        m_per_pixel > 0,
{
    ceil_ratio(r_m as int, m_per_pixel as int)
}

/// A corridor's half-width in whole pixels, computed.
pub fn half_width(r_m: u64, m_per_pixel: u64) -> (w: u64)
    requires
        m_per_pixel > 0,
    ensures
        w == half_width_px(r_m, m_per_pixel),
{
    let q: u64 = r_m / m_per_pixel;
    let rest: u64 = r_m % m_per_pixel;
    assert(-((-(r_m as int)) / (m_per_pixel as int)) == (if rest == 0 {
        q as int
    } else {
        q + 1
    })) by (nonlinear_arith)
        requires
            m_per_pixel > 0,
            r_m >= 0,
            q == (r_m as int) / (m_per_pixel as int),
            rest == (r_m as int) % (m_per_pixel as int),
    ;
    assert(q <= r_m) by (nonlinear_arith)
        requires
            m_per_pixel > 0,
            r_m >= 0,
            q == (r_m as int) / (m_per_pixel as int),
    ;
    if rest == 0 {
        q
    } else {
        assert(q < r_m) by (nonlinear_arith)
            requires
                m_per_pixel > 0,
                q == (r_m as int) / (m_per_pixel as int),
                rest == (r_m as int) % (m_per_pixel as int),
                rest > 0,
        ;
        q + 1
    }
}

/// The share of the half-width that falls on one axis, computed.
pub(crate) fn offset_component(d: i32, n: u64, w: u64) -> (m: i64)
    requires
        -65535 <= d <= 65535,
        d * d <= n <= 2 * 65535 * 65535,
        n > 0,
        w <= MAX_HALF_WIDTH,
    ensures
        m == offset_magnitude(d as int, n as int, w as int),
        0 <= m <= w * SCALE,
{
    let a: u64 = if d >= 0 {
        d as u64
    } else {
        (-d) as u64
    };
    assert(w * a <= 65535 * 65535) by (nonlinear_arith)
        requires
            w <= 65535,
            a <= 65535,
    ;
    let wa: u64 = w * a;
    assert(wa <= 4294836225);
    let f: u128 = (wa as u128) * (SCALE as u128);
    assert(f * f <= 42948362250000000 * 42948362250000000) by (nonlinear_arith)
        requires
            0 <= f <= 42948362250000000,
    ;
    let q: u128 = (f * f) / (n as u128);
    let r: u128 = isqrt(q);
    proof {
        let full = w as int * SCALE as int;
        assert(a as int == int_abs(d as int));
        assert(f as int == w as int * int_abs(d as int) * SCALE as int) by (nonlinear_arith)
            requires
                f == wa * SCALE,
                wa == w * a,
                a as int == int_abs(d as int),
        ;
        assert(f * f == (full * full) * (a * a)) by (nonlinear_arith)
            requires
                f == wa * SCALE,
                wa == w * a,
                full == w * SCALE,
        ;
        assert(a * a == d * d) by (nonlinear_arith)
            requires
                a == d || a == -d,
        ;
        assert((full * full) * (a * a) <= (full * full) * n) by (nonlinear_arith)
            requires
                a * a <= n,
        ;
        assert(q <= full * full) by (nonlinear_arith)
            requires
                q == (f * f) / (n as int),
                f * f <= (full * full) * n,
                n > 0,
        ;
        assert(is_int_sqrt(full, full * full)) by (nonlinear_arith)
            requires
                full >= 0,
        ;
        lemma_int_sqrt_monotone(r as int, q as int, full, full * full);
    }
    r as i64
}

/// A half-width is not negative.
pub proof fn lemma_half_width_sign(r_m: u64, m_per_pixel: u64)
    requires
        m_per_pixel > 0,
    ensures
        half_width_px(r_m, m_per_pixel) >= 0,
{
    assert(-((-(r_m as int)) / (m_per_pixel as int)) >= 0) by (nonlinear_arith)
        requires
            m_per_pixel > 0,
            r_m >= 0,
    ;
}

/// The share of a half-width that falls on one axis is no more than the
/// half-width.
pub proof fn lemma_offset_bound(d: int, n: int, w: int)
    requires
        d * d <= n,
        n > 0,
        w >= 0,
    ensures
        0 <= offset_magnitude(d, n, w) <= w * SCALE,
{
    let a = int_abs(d);
    let full = w * SCALE;
    let f = w * a * SCALE;
    assert(full >= 0) by (nonlinear_arith)
        requires
            w >= 0,
            full == w * 10_000_000,
    ;
    assert(a * a == d * d) by (nonlinear_arith)
        requires
            a == d || a == -d,
    ;
    assert(f * f == (full * full) * (a * a)) by (nonlinear_arith)
        requires
            f == w * a * SCALE,
            full == w * SCALE,
    ;
    assert(0 <= (full * full) * (a * a) <= (full * full) * n) by (nonlinear_arith)
        requires
            0 <= a * a <= n,
    ;
    let q = (f * f) / n;
    assert(0 <= q <= full * full) by (nonlinear_arith)
        requires
            q == (f * f) / n,
            0 <= f * f <= (full * full) * n,
            n > 0,
    ;
    lemma_int_sqrt_exists(q);
    assert(is_int_sqrt(full, full * full)) by (nonlinear_arith)
        requires
            full >= 0,
    ;
    lemma_int_sqrt_monotone(int_sqrt(q), q, full, full * full);
}

/// The offset of a corridor's rim is no more than the half-width along
/// either axis.
pub proof fn lemma_perpendicular_bound(dx: int, dy: int, w: int)
    requires
        w >= 0,
    ensures
        -(w * SCALE) <= perpendicular(dx, dy, w).0 <= w * SCALE,
        -(w * SCALE) <= perpendicular(dx, dy, w).1 <= w * SCALE,
        0 <= w * SCALE,
{
    assert(0 <= w * SCALE) by (nonlinear_arith)
        requires
            w >= 0,
    ;
    if dx != 0 || dy != 0 {
        let n = dx * dx + dy * dy;
        assert(dx * dx <= n && dy * dy <= n && n > 0) by (nonlinear_arith)
            requires
                n == dx * dx + dy * dy,
                dx != 0 || dy != 0,
        ;
        lemma_offset_bound(dx, n, w);
        lemma_offset_bound(dy, n, w);
    }
}

/// A segment without extent along an axis gets no share of the half-width
/// on the other.
pub(crate) proof fn lemma_no_offset(n: int, w: int)
    requires
        n > 0,
    ensures
        offset_magnitude(0, n, w) == 0,
{
    assert(is_int_sqrt(0, 0));
    lemma_int_sqrt_is(0, 0);
    assert((w * 0 * SCALE) * (w * 0 * SCALE) == 0) by (nonlinear_arith);
    assert(0int / n == 0) by (nonlinear_arith)
        requires
            n > 0,
    ;
}

/// Turning a segment round turns its perpendicular offset round.
pub(crate) proof fn lemma_perpendicular_opposite(dx: int, dy: int, w: int)
    requires
        dx != 0 || dy != 0,
    ensures
        perpendicular(-dx, -dy, w).0 == -perpendicular(dx, dy, w).0,
        perpendicular(-dx, -dy, w).1 == -perpendicular(dx, dy, w).1,
{
    let n = dx * dx + dy * dy;
    assert((-dx) * (-dx) + (-dy) * (-dy) == n) by (nonlinear_arith)
        requires
            n == dx * dx + dy * dy,
    ;
    assert(n > 0) by (nonlinear_arith)
        requires
            n == dx * dx + dy * dy,
            dx != 0 || dy != 0,
    ;
    lemma_no_offset(n, w);
    assert(int_abs(-dx) == int_abs(dx) && int_abs(-dy) == int_abs(dy));
}

/// The corridor from `p2` back to `p1` is the corridor from `p1` to `p2`
/// with its sides exchanged and turned round.
pub(crate) proof fn lemma_corridor_opposite(p1: Coord<i16>, p2: Coord<i16>, w: int)
    requires
        p1 != p2,
    ensures
        corridor(p2, p1, w) == corridor(p1, p2, w).reversed().flipped(),
{
    let dx = p2.x - p1.x;
    let dy = p2.y - p1.y;
    lemma_perpendicular_opposite(dx, dy, w);
    let forth = perpendicular(dx, dy, w);
    let back = perpendicular(p1.x - p2.x, p1.y - p2.y, w);
    assert(back.0 == -forth.0 && back.1 == -forth.1);
    let there = corridor_sides(p1, p2, w);
    let here = corridor_sides(p2, p1, w);
    assert(here.0.0 == there.1.1);
    assert(here.0.1 == there.1.0);
    assert(here.1.0 == there.0.1);
    assert(here.1.1 == there.0.0);
}

/// Snapping a coordinate and moving it by whole pixels can be done in either
/// order.
pub(crate) proof fn lemma_snap_moved(c: int, k: int)
    ensures
        snap(c + k * SCALE) == snap(c) + k * SCALE,
{
    let m = c % (SCALE as int);
    let q = c / (SCALE as int);
    assert((q + k) * SCALE + m == c + k * SCALE) by (nonlinear_arith)
        requires
            c == q * SCALE + m,
    ;
    vstd::arithmetic::div_mod::lemma_fundamental_div_mod_converse(
        c + k * SCALE,
        SCALE as int,
        q + k,
        m,
    );
}

/// Snapping and moving by whole pixels can be done in either order.
pub(crate) proof fn lemma_snapped_moved(p: Coord<i64>, kx: int, ky: int)
    requires
        in_extent(p),
        -100_000 <= kx <= 100_000,
        -100_000 <= ky <= 100_000,
    ensures
        snapped(moved(p, kx, ky)) == moved(snapped(p), kx, ky),
        in_extent(snapped(p)),
{
    lemma_snap_moved(p.x as int, kx);
    lemma_snap_moved(p.y as int, ky);
}

/// Whether a corridor is too close to singular depends on the step between
/// its end points alone, not on where they lie.
pub proof fn lemma_corridor_moved(u: Coord<i16>, v: Coord<i16>, w: int)
    requires
        0 <= w <= MAX_HALF_WIDTH,
        -32768 <= v.x - u.x <= 32767,
        -32768 <= v.y - u.y <= 32767,
    ensures
        corridor(u, v, w).quad().degenerate() == corridor(
            Coord { x: 0, y: 0 },
            Coord { x: (v.x - u.x) as i16, y: (v.y - u.y) as i16 },
            w,
        ).quad().degenerate(),
{
    let zero = Coord { x: 0i16, y: 0i16 };
    let step = Coord { x: (v.x - u.x) as i16, y: (v.y - u.y) as i16 };
    lemma_perpendicular_bound(v.x - u.x, v.y - u.y, w);
    let o = perpendicular(v.x - u.x, v.y - u.y, w);
    assert(o == perpendicular(step.x - zero.x, step.y - zero.y, w));
    let here = corridor_sides(u, v, w);
    let base = corridor_sides(zero, step, w);
    let kx = u.x as int;
    let ky = u.y as int;
    assert(here.0.0 == moved(base.0.0, kx, ky));
    assert(here.0.1 == moved(base.0.1, kx, ky));
    assert(here.1.0 == moved(base.1.0, kx, ky));
    assert(here.1.1 == moved(base.1.1, kx, ky));
    lemma_snapped_moved(base.0.0, kx, ky);
    lemma_snapped_moved(base.0.1, kx, ky);
    lemma_snapped_moved(base.1.0, kx, ky);
    lemma_snapped_moved(base.1.1, kx, ky);
    lemma_classify_moved(
        snapped(base.0.0),
        snapped(base.0.1),
        snapped(base.1.0),
        snapped(base.1.1),
        kx,
        ky,
    );
}

} // verus!
