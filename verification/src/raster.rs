//! The corridor rasteriser: every grid cell that a quadrilateral between two
//! parallel sides overlaps, column by column.

use crate::coord::{in_extent, snapped, Coord};
use crate::fixed::{
    ceil_div, ceil_ratio, clamp16, floor_div, floor_ratio, round_div, round_ratio, saturate16,
    DEGENERATE_TOLERANCE, HALF, MAX_EXTENT, ROUNDING_BIAS, SCALE, VERTICAL_TOLERANCE,
};
use crate::trusted::sorting::{pair_le, pair_order, sorted_pairs};
use vstd::arithmetic::div_mod::lemma_fundamental_div_mod_converse;
use vstd::prelude::*;
use vstd::relations::{sorted_by, total_ordering};
use vstd::seq_lib::{
    lemma_sorted_unique, to_multiset_build, to_multiset_contains, to_multiset_insert,
    to_multiset_remove,
};

verus! {

/// `n / d` rounded to the nearest integer, halves away from zero, for `d != 0`.
pub open spec fn round_signed(n: int, d: int) -> int
    recommends
        d != 0,
{
    if d > 0 {
        round_ratio(n, d)
    } else {
        round_ratio(-n, -d)
    }
}

/// Where the column `x` clips the edge from `p0` to `p1` when the lower bound
/// is taken: the left rim of the column on a rising edge, the right rim on a
/// falling one, never beyond the edge's own end on that side.
pub open spec fn lower_sample(p0: Coord<i64>, p1: Coord<i64>, x: int) -> int {
    let dx = p1.x - p0.x;
    let dy = p1.y - p0.y;
    if dy * dx >= 0 {
        if p0.x >= x * SCALE - HALF {
            p0.x as int
        } else {
            x * SCALE - HALF
        }
    } else {
        if p1.x <= x * SCALE + HALF {
            p1.x as int
        } else {
            x * SCALE + HALF
        }
    }
}

/// Where the column `x` clips the edge from `p0` to `p1` when the upper bound
/// is taken: the mirror image of [`lower_sample`].
pub open spec fn upper_sample(p0: Coord<i64>, p1: Coord<i64>, x: int) -> int {
    let dx = p1.x - p0.x;
    let dy = p1.y - p0.y;
    if dy * dx >= 0 {
        if p1.x <= x * SCALE + HALF {
            p1.x as int
        } else {
            x * SCALE + HALF
        }
    } else {
        if p0.x >= x * SCALE - HALF {
            p0.x as int
        } else {
            x * SCALE - HALF
        }
    }
}

/// The lowest row that the edge from `p0` to `p1` reaches in column `x`.
///
/// A vertical edge gives the floor of its first end. Any other edge is
/// interpolated at [`lower_sample`], biased upwards and rounded.
pub open spec fn min_y(p0: Coord<i64>, p1: Coord<i64>, x: int) -> int {
    let dx = p1.x - p0.x;
    let dy = p1.y - p0.y;
    if -VERTICAL_TOLERANCE < dx < VERTICAL_TOLERANCE {
        clamp16(floor_ratio(p0.y as int, SCALE as int))
    } else {
        clamp16(
            round_signed(
                (p0.y + ROUNDING_BIAS) * dx + dy * (lower_sample(p0, p1, x) - p0.x),
                dx * SCALE,
            ),
        )
    }
}

/// The highest row that the edge from `p0` to `p1` reaches in column `x`.
///
/// A vertical edge gives the ceiling of its second end. Any other edge is
/// interpolated at [`upper_sample`], biased downwards and rounded.
pub open spec fn max_y(p0: Coord<i64>, p1: Coord<i64>, x: int) -> int {
    let dx = p1.x - p0.x;
    let dy = p1.y - p0.y;
    if -VERTICAL_TOLERANCE < dx < VERTICAL_TOLERANCE {
        clamp16(ceil_ratio(p1.y as int, SCALE as int))
    } else {
        clamp16(
            round_signed(
                (p0.y - ROUNDING_BIAS) * dx + dy * (upper_sample(p0, p1, x) - p0.x),
                dx * SCALE,
            ),
        )
    }
}

proof fn lemma_product_bound(a: int, b: int, ma: int, mb: int)
    requires
        -ma <= a <= ma,
        -mb <= b <= mb,
    ensures
        -(ma * mb) <= a * b <= ma * mb,
{
    assert(-(ma * mb) <= a * b <= ma * mb) by (nonlinear_arith)
        requires
            -ma <= a <= ma,
            -mb <= b <= mb,
    ;
}

/// The interpolation shared by both bounds: `base * dx + dy * (sample - p0.x)`
/// over `dx * SCALE`, rounded and limited to the cell range.
fn interpolate(base: i64, dx: i64, dy: i64, run: i64) -> (y: i16)
    requires
        -1_000_000_000_100 <= base <= 1_000_000_000_100,
        -2_000_000_000_000 <= dx <= 2_000_000_000_000,
        -2_000_000_000_000 <= dy <= 2_000_000_000_000,
        -2_000_000_000_000 <= run <= 2_000_000_000_000,
        dx != 0,
    ensures
        y == clamp16(round_signed(base * dx + dy * run, dx * SCALE)),
{
    proof {
        lemma_product_bound(base as int, dx as int, 1_000_000_000_100, 2_000_000_000_000);
        lemma_product_bound(dy as int, run as int, 2_000_000_000_000, 2_000_000_000_000);
        lemma_product_bound(dx as int, SCALE as int, 2_000_000_000_000, 10_000_000);
    }
    let num: i128 = (base as i128) * (dx as i128) + (dy as i128) * (run as i128);
    let den: i128 = (dx as i128) * (SCALE as i128);
    assert(den != 0) by (nonlinear_arith)
        requires
            dx != 0,
            den == dx * 10_000_000,
    ;
    if den > 0 {
        saturate16(round_div(num, den))
    } else {
        saturate16(round_div(-num, -den))
    }
}

/// Whether the edge with these differences rises (or runs level) from left to right.
fn rises(dx: i64, dy: i64) -> (up: bool)
    requires
        -2_000_000_000_000 <= dx <= 2_000_000_000_000,
        -2_000_000_000_000 <= dy <= 2_000_000_000_000,
    ensures
        up == (dy * dx >= 0),
{
    proof {
        lemma_product_bound(dy as int, dx as int, 2_000_000_000_000, 2_000_000_000_000);
    }
    (dy as i128) * (dx as i128) >= 0
}

/// The lowest row that the edge from `p0` to `p1` reaches in column `x`.
pub fn get_min_y(p0: &Coord<i64>, p1: &Coord<i64>, x: i16) -> (y: i16)
    requires
        in_extent(*p0),
        in_extent(*p1),
    ensures
        y == min_y(*p0, *p1, x as int),
{
    let dx: i64 = p1.x - p0.x;
    let dy: i64 = p1.y - p0.y;
    if -VERTICAL_TOLERANCE < dx && dx < VERTICAL_TOLERANCE {
        return saturate16(floor_div(p0.y as i128, SCALE as i128));
    }
    let centre: i64 = (x as i64) * SCALE;
    let sample: i64 = if rises(dx, dy) {
        if p0.x >= centre - HALF {
            p0.x
        } else {
            centre - HALF
        }
    } else {
        if p1.x <= centre + HALF {
            p1.x
        } else {
            centre + HALF
        }
    };
    interpolate(p0.y + ROUNDING_BIAS, dx, dy, sample - p0.x)
}

/// The highest row that the edge from `p0` to `p1` reaches in column `x`.
pub fn get_max_y(p0: &Coord<i64>, p1: &Coord<i64>, x: i16) -> (y: i16)
    requires
        in_extent(*p0),
        in_extent(*p1),
    ensures
        y == max_y(*p0, *p1, x as int),
{
    let dx: i64 = p1.x - p0.x;
    let dy: i64 = p1.y - p0.y;
    if -VERTICAL_TOLERANCE < dx && dx < VERTICAL_TOLERANCE {
        return saturate16(ceil_div(p1.y as i128, SCALE as i128));
    }
    let centre: i64 = (x as i64) * SCALE;
    let sample: i64 = if rises(dx, dy) {
        if p1.x <= centre + HALF {
            p1.x
        } else {
            centre + HALF
        }
    } else {
        if p0.x >= centre - HALF {
            p0.x
        } else {
            centre - HALF
        }
    };
    interpolate(p0.y - ROUNDING_BIAS, dx, dy, sample - p0.x)
}

/// The four corners of a quadrilateral by role: leftmost, bottom, top, rightmost.
#[derive(Clone, Copy, Debug)]
pub struct Quad {
    pub l: Coord<i64>,
    pub b: Coord<i64>,
    pub t: Coord<i64>,
    pub r: Coord<i64>,
}

/// The shape cases that decide which edges bound a column.
#[derive(Clone, Copy, PartialEq, Eq, Debug)]
pub enum Topology {
    /// The top corner lies left of the bottom corner.
    LeanLeft,
    /// The top corner lies right of the bottom corner, at another height.
    LeanRight,
    /// Top and bottom corner share their column.
    Diamond,
    /// Top and bottom corner share their height: an axis-aligned rectangle.
    Flat,
}

/// A point as the pair that the sort orders by x, then y.
pub open spec fn xy(p: Coord<i64>) -> (i64, i64) {
    (p.x, p.y)
}

/// A point as the pair that the sort orders by y, then x.
pub open spec fn yx(p: Coord<i64>) -> (i64, i64) {
    (p.y, p.x)
}

/// The corners by role. Sorted by (x, y), the first corner is the leftmost and
/// the last the rightmost; of the two between, the lesser by (y, x) is the
/// bottom and the other the top.
pub open spec fn classify(a: Coord<i64>, b: Coord<i64>, c: Coord<i64>, d: Coord<i64>) -> Quad {
    let s = seq![xy(a), xy(b), xy(c), xy(d)].sort_by(pair_order());
    let m1 = Coord { x: s[1].0, y: s[1].1 };
    let m2 = Coord { x: s[2].0, y: s[2].1 };
    Quad {
        l: Coord { x: s[0].0, y: s[0].1 },
        b: if pair_le(yx(m1), yx(m2)) { m1 } else { m2 },
        t: if pair_le(yx(m1), yx(m2)) { m2 } else { m1 },
        r: Coord { x: s[3].0, y: s[3].1 },
    }
}

impl Quad {
    /// All four corners lie within the accepted extent.
    pub open spec fn in_extent(self) -> bool {
        &&& in_extent(self.l)
        &&& in_extent(self.b)
        &&& in_extent(self.t)
        &&& in_extent(self.r)
    }

    /// The quadrilateral is too close to singular for the column scan: the
    /// leftmost and bottom corners nearly share a column, or the top and
    /// rightmost corners nearly share a row, without doing so exactly.
    pub open spec fn degenerate(self) -> bool {
        ||| (self.l.x != self.b.x && -DEGENERATE_TOLERANCE < self.l.x - self.b.x
            < DEGENERATE_TOLERANCE)
        ||| (self.t.y != self.r.y && -DEGENERATE_TOLERANCE < self.t.y - self.r.y
            < DEGENERATE_TOLERANCE)
    }

    /// The shape case of the quadrilateral. The four cases cover every
    /// arrangement of the top and bottom corners.
    pub open spec fn topology(self) -> Topology {
        if self.t.x < self.b.x {
            Topology::LeanLeft
        } else if self.t.x == self.b.x {
            Topology::Diamond
        } else if self.t.y != self.b.y {
            Topology::LeanRight
        } else {
            Topology::Flat
        }
    }

    /// The rows `(lowest, highest)` that the quadrilateral covers in column `x`.
    pub open spec fn column_range(self, x: int) -> (int, int) {
        let cx = x * SCALE;
        match self.topology() {
            Topology::LeanLeft => {
                if cx < self.t.x {
                    (min_y(self.l, self.b, x), max_y(self.l, self.t, x))
                } else if cx <= self.b.x {
                    (min_y(self.l, self.b, x), max_y(self.t, self.r, x))
                } else {
                    (min_y(self.b, self.r, x), max_y(self.t, self.r, x))
                }
            },
            Topology::LeanRight => {
                if cx < self.b.x {
                    (min_y(self.l, self.b, x), max_y(self.l, self.t, x))
                } else if cx <= self.t.x {
                    (min_y(self.b, self.r, x), max_y(self.l, self.t, x))
                } else {
                    (min_y(self.b, self.r, x), max_y(self.t, self.r, x))
                }
            },
            Topology::Diamond => {
                if cx < self.t.x {
                    (min_y(self.l, self.b, x), max_y(self.l, self.t, x))
                } else {
                    (min_y(self.b, self.r, x), max_y(self.t, self.r, x))
                }
            },
            Topology::Flat => (min_y(self.l, self.t, x), max_y(self.b, self.r, x)),
        }
    }

    /// The first column that the quadrilateral touches.
    pub open spec fn first_column(self) -> int {
        clamp16(floor_ratio(self.l.x as int, SCALE as int))
    }

    /// The last column that the quadrilateral touches.
    pub open spec fn last_column(self) -> int {
        clamp16(floor_ratio(self.r.x as int, SCALE as int))
    }

    /// The cells of column `x`, from the lowest row up.
    pub open spec fn column_cells(self, x: int) -> Seq<Coord<i16>> {
        rows_of(x, self.column_range(x).0, self.column_range(x).1)
    }

    /// The cells of the columns `x ..= last`, column by column.
    pub open spec fn cells_from(self, x: int, last: int) -> Seq<Coord<i16>>
        decreases last - x + 1,
    {
        if x > last {
            Seq::empty()
        } else {
            self.column_cells(x) + self.cells_from(x + 1, last)
        }
    }

    /// Every cell that the quadrilateral covers, in column-major order.
    pub open spec fn cells(self) -> Seq<Coord<i16>> {
        self.cells_from(self.first_column(), self.last_column())
    }

    /// A quadrilateral covers at most 65536 rows in each of at most 65536 columns.
    pub proof fn lemma_cells_from_len(self, x: int, last: int)
        requires
            -32768 <= x <= last + 1,
            last <= 32767,
        ensures
            self.cells_from(x, last).len() <= (last - x + 1) * 65536,
        decreases last - x + 1,
    {
        if x <= last {
            self.lemma_cells_from_len(x + 1, last);
            assert(self.column_cells(x).len() <= 65536);
            assert((last - x + 1) * 65536 == 65536 + (last - (x + 1) + 1) * 65536);
        }
    }

    /// A quadrilateral covers at most 2^32 cells.
    pub proof fn lemma_cells_len(self)
        ensures
            self.cells().len() <= 0x1_0000_0000,
    {
        if self.first_column() <= self.last_column() {
            self.lemma_cells_from_len(self.first_column(), self.last_column());
        } else {
            assert(self.cells() =~= Seq::empty());
        }
    }

    /// The shape case, computed.
    pub fn shape(&self) -> (shape: Topology)
        ensures
            shape == self.topology(),
    {
        if self.t.x < self.b.x {
            Topology::LeanLeft
        } else if self.t.x == self.b.x {
            Topology::Diamond
        } else if self.t.y != self.b.y {
            Topology::LeanRight
        } else {
            Topology::Flat
        }
    }

    /// Whether the quadrilateral is too close to singular, computed.
    pub fn is_degenerate(&self) -> (bad: bool)
        requires
            self.in_extent(),
        ensures
            bad == self.degenerate(),
    {
        let dx: i64 = self.l.x - self.b.x;
        let dy: i64 = self.t.y - self.r.y;
        (dx != 0 && -DEGENERATE_TOLERANCE < dx && dx < DEGENERATE_TOLERANCE) || (dy != 0
            && -DEGENERATE_TOLERANCE < dy && dy < DEGENERATE_TOLERANCE)
    }

    /// The rows `(lowest, highest)` covered in column `x`, computed. A
    /// quadrilateral too close to singular has no rows to ask for.
    pub fn y_range(&self, x: i16) -> (range: (i16, i16))
        requires
            self.in_extent(),
            !self.degenerate(),
        ensures
            range.0 == self.column_range(x as int).0,
            range.1 == self.column_range(x as int).1,
    {
        let cx: i64 = (x as i64) * SCALE;
        match self.shape() {
            Topology::LeanLeft => {
                if cx < self.t.x {
                    (get_min_y(&self.l, &self.b, x), get_max_y(&self.l, &self.t, x))
                } else if cx <= self.b.x {
                    (get_min_y(&self.l, &self.b, x), get_max_y(&self.t, &self.r, x))
                } else {
                    (get_min_y(&self.b, &self.r, x), get_max_y(&self.t, &self.r, x))
                }
            },
            Topology::LeanRight => {
                if cx < self.b.x {
                    (get_min_y(&self.l, &self.b, x), get_max_y(&self.l, &self.t, x))
                } else if cx <= self.t.x {
                    (get_min_y(&self.b, &self.r, x), get_max_y(&self.l, &self.t, x))
                } else {
                    (get_min_y(&self.b, &self.r, x), get_max_y(&self.t, &self.r, x))
                }
            },
            Topology::Diamond => {
                if cx < self.t.x {
                    (get_min_y(&self.l, &self.b, x), get_max_y(&self.l, &self.t, x))
                } else {
                    (get_min_y(&self.b, &self.r, x), get_max_y(&self.t, &self.r, x))
                }
            },
            Topology::Flat => (get_min_y(&self.l, &self.t, x), get_max_y(&self.b, &self.r, x)),
        }
    }
}

/// The cells of column `x` in the rows `lo ..= hi`, lowest first; none when
/// `lo` is above `hi`.
pub open spec fn rows_of(x: int, lo: int, hi: int) -> Seq<Coord<i16>> {
    Seq::new(
        if hi >= lo {
            (hi - lo + 1) as nat
        } else {
            0nat
        },
        |k: int| Coord { x: x as i16, y: (lo + k) as i16 },
    )
}

/// Why a quadrilateral cannot be rasterised.
#[derive(Clone, Copy, PartialEq, Eq, Debug)]
pub enum GeometryError {
    /// A corner lies outside the accepted extent.
    OutOfRange,
    /// The corridor is wider than the rasteriser can represent.
    TooWide,
    /// The quadrilateral is too close to singular to classify.
    Degenerate,
}

/// The lexicographic order on pairs is a total order.
pub proof fn lemma_pair_order_total()
    ensures
        total_ordering(pair_order()),
{
    let r = pair_order();
    assert forall|x: (i64, i64)| #[trigger] r(x, x) by {}
    assert forall|x: (i64, i64), y: (i64, i64)| #[trigger] r(x, y) && #[trigger] r(y, x) implies x
        == y by {}
    assert forall|x: (i64, i64), y: (i64, i64), z: (i64, i64)| #[trigger]
        r(x, y) && #[trigger] r(y, z) implies r(x, z) by {}
    assert forall|x: (i64, i64), y: (i64, i64)| #[trigger] r(x, y) || #[trigger] r(y, x) by {}
}

/// The corners by role, computed with the help of the outside sort.
pub fn classify_corners(a: Coord<i64>, b: Coord<i64>, c: Coord<i64>, d: Coord<i64>) -> (q: Quad)
    ensures
        q == classify(a, b, c, d),
{
    let mut corners: Vec<(i64, i64)> = Vec::new();
    corners.push((a.x, a.y));
    corners.push((b.x, b.y));
    corners.push((c.x, c.y));
    corners.push((d.x, d.y));
    let ghost input = seq![xy(a), xy(b), xy(c), xy(d)];
    assert(corners@ =~= input);
    let sorted = sorted_pairs(corners);
    proof {
        lemma_pair_order_total();
        input.lemma_sort_by_ensures(pair_order());
        lemma_sorted_unique(sorted@, input.sort_by(pair_order()), pair_order());
        sorted@.to_multiset_ensures();
        input.to_multiset_ensures();
        assert(sorted@.len() == 4);
    }
    let m1 = Coord { x: sorted[1].0, y: sorted[1].1 };
    let m2 = Coord { x: sorted[2].0, y: sorted[2].1 };
    let mut mids: Vec<(i64, i64)> = Vec::new();
    mids.push((m1.y, m1.x));
    mids.push((m2.y, m2.x));
    let ghost pair = seq![yx(m1), yx(m2)];
    assert(mids@ =~= pair);
    let ordered = sorted_pairs(mids);
    proof {
        let swapped = seq![yx(m2), yx(m1)];
        let expected = if pair_le(yx(m1), yx(m2)) {
            pair
        } else {
            swapped
        };
        broadcast use to_multiset_build;
        assert(pair =~= Seq::<(i64, i64)>::empty().push(yx(m1)).push(yx(m2)));
        assert(swapped =~= Seq::<(i64, i64)>::empty().push(yx(m2)).push(yx(m1)));
        assert(swapped.to_multiset() =~= pair.to_multiset());
        assert(sorted_by(expected, pair_order()));
        lemma_sorted_unique(ordered@, expected, pair_order());
        assert(ordered@.len() == 2);
    }
    Quad {
        l: Coord { x: sorted[0].0, y: sorted[0].1 },
        b: Coord { x: ordered[0].1, y: ordered[0].0 },
        t: Coord { x: ordered[1].1, y: ordered[1].0 },
        r: Coord { x: sorted[3].0, y: sorted[3].1 },
    }
}

/// A quadrilateral given by two parallel sides: the corridor between two path
/// nodes, in sub-pixel coordinates.
#[derive(Clone, Copy, Debug)]
pub struct ParallelogramPixels {
    pub origin_side: (Coord<i64>, Coord<i64>),
    pub destination_side: (Coord<i64>, Coord<i64>),
}

impl ParallelogramPixels {
    /// All four corners lie within the accepted extent.
    pub open spec fn in_extent(self) -> bool {
        &&& in_extent(self.origin_side.0)
        &&& in_extent(self.origin_side.1)
        &&& in_extent(self.destination_side.0)
        &&& in_extent(self.destination_side.1)
    }

    /// The corners by role.
    pub open spec fn quad(self) -> Quad {
        classify(
            self.origin_side.0,
            self.origin_side.1,
            self.destination_side.0,
            self.destination_side.1,
        )
    }

    /// Every cell that the quadrilateral covers, in column-major order.
    pub open spec fn cells(self) -> Seq<Coord<i16>> {
        self.quad().cells()
    }

    /// The quadrilateral between two sides, with every corner snapped.
    pub fn new(origin_side: (Coord<i64>, Coord<i64>), destination_side: (
        Coord<i64>,
        Coord<i64>,
    )) -> (shape: Self)
        requires
            in_extent(origin_side.0),
            in_extent(origin_side.1),
            in_extent(destination_side.0),
            in_extent(destination_side.1),
        ensures
            shape.origin_side.0 == snapped(origin_side.0),
            shape.origin_side.1 == snapped(origin_side.1),
            shape.destination_side.0 == snapped(destination_side.0),
            shape.destination_side.1 == snapped(destination_side.1),
            shape.in_extent(),
    {
        let mut o0 = origin_side.0;
        let mut o1 = origin_side.1;
        let mut d0 = destination_side.0;
        let mut d1 = destination_side.1;
        o0.round_if_needed();
        o1.round_if_needed();
        d0.round_if_needed();
        d1.round_if_needed();
        ParallelogramPixels { origin_side: (o0, o1), destination_side: (d0, d1) }
    }

    /// Whether every corner lies within the accepted extent, computed.
    pub fn fits(&self) -> (ok: bool)
        ensures
            ok == self.in_extent(),
    {
        point_fits(&self.origin_side.0) && point_fits(&self.origin_side.1) && point_fits(
            &self.destination_side.0,
        ) && point_fits(&self.destination_side.1)
    }

    /// A cursor over the covered cells, column by column and from the lowest
    /// row up within a column.
    ///
    /// Fails on a corner outside the accepted extent, and on a quadrilateral
    /// too close to singular to classify.
    pub fn iter(&self) -> (cursor: Result<ParallelogramPixelsIter, GeometryError>)
        ensures
            !self.in_extent() ==> cursor == Err::<ParallelogramPixelsIter, _>(
                GeometryError::OutOfRange,
            ),
            self.in_extent() && self.quad().degenerate() ==> cursor == Err::<
                ParallelogramPixelsIter,
                _,
            >(GeometryError::Degenerate),
            self.in_extent() && !self.quad().degenerate() ==> cursor is Ok,
            cursor matches Ok(it) ==> it.wf() && it@ == self.cells() && it.quad() == self.quad(),
    {
        if !self.fits() {
            return Err(GeometryError::OutOfRange);
        }
        let quad = classify_corners(
            self.origin_side.0,
            self.origin_side.1,
            self.destination_side.0,
            self.destination_side.1,
        );
        proof {
            lemma_classify_in_extent(
                self.origin_side.0,
                self.origin_side.1,
                self.destination_side.0,
                self.destination_side.1,
            );
        }
        if quad.is_degenerate() {
            return Err(GeometryError::Degenerate);
        }
        Ok(ParallelogramPixelsIter::new(quad))
    }
}

/// Whether one point lies within the accepted extent, computed.
fn point_fits(p: &Coord<i64>) -> (ok: bool)
    ensures
        ok == in_extent(*p),
{
    -MAX_EXTENT <= p.x && p.x <= MAX_EXTENT && -MAX_EXTENT <= p.y && p.y <= MAX_EXTENT
}

/// Classification only reorders the corners, so it keeps them within the extent.
pub proof fn lemma_classify_in_extent(a: Coord<i64>, b: Coord<i64>, c: Coord<i64>, d: Coord<i64>)
    requires
        in_extent(a),
        in_extent(b),
        in_extent(c),
        in_extent(d),
    ensures
        classify(a, b, c, d).in_extent(),
{
    lemma_sorted_in_extent(a, b, c, d, 0);
    lemma_sorted_in_extent(a, b, c, d, 1);
    lemma_sorted_in_extent(a, b, c, d, 2);
    lemma_sorted_in_extent(a, b, c, d, 3);
}

/// A cursor over the cells of a quadrilateral.
pub struct ParallelogramPixelsIter {
    quad: Quad,
    x: i32,
    y: i32,
    hi: i32,
    last: i32,
}

impl ParallelogramPixelsIter {
    /// The quadrilateral that is being scanned.
    pub closed spec fn quad(self) -> Quad {
        self.quad
    }

    /// The cursor stands in a column of the quadrilateral, or behind the last.
    pub closed spec fn wf(self) -> bool {
        &&& self.quad.in_extent()
        &&& !self.quad.degenerate()
        &&& self.last == self.quad.last_column()
        &&& -32768 <= self.x <= self.last + 1
        &&& self.x <= self.last ==> {
            &&& self.hi == self.quad.column_range(self.x as int).1
            &&& self.quad.column_range(self.x as int).0 <= self.y <= 32768
        }
    }

    /// The cells that are still to come.
    pub closed spec fn view(self) -> Seq<Coord<i16>> {
        if self.x > self.last {
            Seq::empty()
        } else {
            rows_of(self.x as int, self.y as int, self.hi as int) + self.quad.cells_from(
                self.x + 1,
                self.last as int,
            )
        }
    }

    fn new(quad: Quad) -> (it: Self)
        requires
            quad.in_extent(),
            !quad.degenerate(),
        ensures
            it.wf(),
            it@ == quad.cells(),
            it.quad() == quad,
    {
        let first: i16 = saturate16(floor_div(quad.l.x as i128, SCALE as i128));
        let last: i16 = saturate16(floor_div(quad.r.x as i128, SCALE as i128));
        if first > last {
            ParallelogramPixelsIter { quad, x: last as i32 + 1, y: 0, hi: 0, last: last as i32 }
        } else {
            let range = quad.y_range(first);
            ParallelogramPixelsIter {
                quad,
                x: first as i32,
                y: range.0 as i32,
                hi: range.1 as i32,
                last: last as i32,
            }
        }
    }

    /// The next cell, or `None` when every cell has been handed out.
    pub fn next(&mut self) -> (cell: Option<Coord<i16>>)
        requires
            old(self).wf(),
        ensures
            final(self).wf(),
            final(self).quad() == old(self).quad(),
            match cell {
                Some(c) => old(self)@.len() > 0 && c == old(self)@[0] && final(self)@ == old(
                    self,
                )@.drop_first(),
                None => old(self)@.len() == 0 && final(self)@.len() == 0,
            },
    {
        while self.x <= self.last
            invariant
                self.wf(),
                self@ == old(self)@,
                self.quad == old(self).quad,
            decreases self.last - self.x + 1,
        {
            if self.y <= self.hi {
                let c = Coord { x: self.x as i16, y: self.y as i16 };
                let ghost before = self@;
                self.y = self.y + 1;
                assert(self@ =~= before.drop_first());
                return Some(c);
            }
            self.x = self.x + 1;
            if self.x <= self.last {
                let range = self.quad.y_range(self.x as i16);
                self.y = range.0 as i32;
                self.hi = range.1 as i32;
            }
            assert(self@ =~= old(self)@);
        }
        None
    }
}

/// Classification looks at the four corners as a collection: corners given
/// in another order are classified alike.
pub proof fn lemma_classify_permuted(
    a: Coord<i64>,
    b: Coord<i64>,
    c: Coord<i64>,
    d: Coord<i64>,
    e: Coord<i64>,
    f: Coord<i64>,
    g: Coord<i64>,
    h: Coord<i64>,
)
    requires
        seq![xy(a), xy(b), xy(c), xy(d)].to_multiset() == seq![xy(e), xy(f), xy(g), xy(h)].to_multiset(),
    ensures
        classify(a, b, c, d) == classify(e, f, g, h),
{
    let s = seq![xy(a), xy(b), xy(c), xy(d)];
    let t = seq![xy(e), xy(f), xy(g), xy(h)];
    lemma_pair_order_total();
    s.lemma_sort_by_ensures(pair_order());
    t.lemma_sort_by_ensures(pair_order());
    lemma_sorted_unique(s.sort_by(pair_order()), t.sort_by(pair_order()), pair_order());
}

impl ParallelogramPixels {
    /// The shape with its two sides exchanged.
    pub open spec fn reversed(self) -> ParallelogramPixels {
        ParallelogramPixels { origin_side: self.destination_side, destination_side: self.origin_side }
    }

    /// The shape with the two ends of each side exchanged.
    pub open spec fn flipped(self) -> ParallelogramPixels {
        ParallelogramPixels {
            origin_side: (self.origin_side.1, self.origin_side.0),
            destination_side: (self.destination_side.1, self.destination_side.0),
        }
    }

    /// A quadrilateral covers the same cells, in the same order, whichever
    /// of its sides is taken as the origin side and whichever way round the
    /// ends of its sides are given.
    pub proof fn lemma_sides_symmetric(self)
        ensures
            self.reversed().quad() == self.quad(),
            self.flipped().quad() == self.quad(),
            self.reversed().flipped().quad() == self.quad(),
            self.reversed().cells() == self.cells(),
            self.flipped().cells() == self.cells(),
            self.reversed().flipped().cells() == self.cells(),
    {
        broadcast use to_multiset_build;

        let a = xy(self.origin_side.0);
        let b = xy(self.origin_side.1);
        let c = xy(self.destination_side.0);
        let d = xy(self.destination_side.1);
        let e = Seq::<(i64, i64)>::empty();
        let given = seq![a, b, c, d];
        assert(given =~= e.push(a).push(b).push(c).push(d));
        let reversed = seq![c, d, a, b];
        assert(reversed =~= e.push(c).push(d).push(a).push(b));
        assert(reversed.to_multiset() =~= given.to_multiset());
        let flipped = seq![b, a, d, c];
        assert(flipped =~= e.push(b).push(a).push(d).push(c));
        assert(flipped.to_multiset() =~= given.to_multiset());
        let both = seq![d, c, b, a];
        assert(both =~= e.push(d).push(c).push(b).push(a));
        assert(both.to_multiset() =~= given.to_multiset());
        lemma_classify_permuted(
            self.destination_side.0,
            self.destination_side.1,
            self.origin_side.0,
            self.origin_side.1,
            self.origin_side.0,
            self.origin_side.1,
            self.destination_side.0,
            self.destination_side.1,
        );
        lemma_classify_permuted(
            self.origin_side.1,
            self.origin_side.0,
            self.destination_side.1,
            self.destination_side.0,
            self.origin_side.0,
            self.origin_side.1,
            self.destination_side.0,
            self.destination_side.1,
        );
        lemma_classify_permuted(
            self.destination_side.1,
            self.destination_side.0,
            self.origin_side.1,
            self.origin_side.0,
            self.origin_side.0,
            self.origin_side.1,
            self.destination_side.0,
            self.destination_side.1,
        );
    }
}

/// A pair moved by `(kx, ky)` whole pixels.
pub open spec fn moved_pair(p: (i64, i64), kx: int, ky: int) -> (i64, i64) {
    ((p.0 + kx * SCALE) as i64, (p.1 + ky * SCALE) as i64)
}

/// A point moved by `(kx, ky)` whole pixels.
pub open spec fn moved(p: Coord<i64>, kx: int, ky: int) -> Coord<i64> {
    Coord { x: (p.x + kx * SCALE) as i64, y: (p.y + ky * SCALE) as i64 }
}

impl Quad {
    /// The quadrilateral moved by `(kx, ky)` whole pixels.
    pub open spec fn moved(self, kx: int, ky: int) -> Quad {
        Quad {
            l: moved(self.l, kx, ky),
            b: moved(self.b, kx, ky),
            t: moved(self.t, kx, ky),
            r: moved(self.r, kx, ky),
        }
    }
}

/// Two sequences that hold the same pairs still do so when every pair is moved.
proof fn lemma_moved_multiset(s: Seq<(i64, i64)>, p: Seq<(i64, i64)>, kx: int, ky: int)
    requires
        s.to_multiset() == p.to_multiset(),
    ensures
        s.map_values(|q: (i64, i64)| moved_pair(q, kx, ky)).to_multiset() == p.map_values(
            |q: (i64, i64)| moved_pair(q, kx, ky),
        ).to_multiset(),
    decreases s.len(),
{
    broadcast use vstd::multiset::group_multiset_axioms;

    let f = |q: (i64, i64)| moved_pair(q, kx, ky);
    let ms = s.map_values(f);
    let mp = p.map_values(f);
    s.to_multiset_ensures();
    p.to_multiset_ensures();
    if s.len() == 0 {
        assert(p.len() == 0);
        assert(ms =~= mp);
    } else {
        to_multiset_contains(s, s[0]);
        to_multiset_contains(p, s[0]);
        assert(s.contains(s[0]));
        assert(p.contains(s[0]));
        let j = choose|j: int| 0 <= j < p.len() && p[j] == s[0];
        to_multiset_remove(s, 0);
        to_multiset_remove(p, j);
        lemma_moved_multiset(s.remove(0), p.remove(j), kx, ky);
        let rs = s.remove(0).map_values(f);
        let rp = p.remove(j).map_values(f);
        assert(rs.insert(0, f(s[0])) =~= ms);
        assert(rp.insert(j, f(s[0])) =~= mp);
        to_multiset_insert(rs, 0, f(s[0]));
        to_multiset_insert(rp, j, f(s[0]));
    }
}

/// Moving the four corners by whole pixels moves the classified corners
/// alike: classification does not depend on where a quadrilateral lies.
pub proof fn lemma_classify_moved(
    a: Coord<i64>,
    b: Coord<i64>,
    c: Coord<i64>,
    d: Coord<i64>,
    kx: int,
    ky: int,
)
    requires
        in_extent(a),
        in_extent(b),
        in_extent(c),
        in_extent(d),
        -100_000 <= kx <= 100_000,
        -100_000 <= ky <= 100_000,
    ensures
        classify(moved(a, kx, ky), moved(b, kx, ky), moved(c, kx, ky), moved(d, kx, ky))
            == classify(a, b, c, d).moved(kx, ky),
        classify(a, b, c, d).moved(kx, ky).degenerate() == classify(a, b, c, d).degenerate(),
{
    let f = |q: (i64, i64)| moved_pair(q, kx, ky);
    let input = seq![xy(a), xy(b), xy(c), xy(d)];
    let later = seq![
        xy(moved(a, kx, ky)),
        xy(moved(b, kx, ky)),
        xy(moved(c, kx, ky)),
        xy(moved(d, kx, ky)),
    ];
    assert(later =~= input.map_values(f));
    lemma_pair_order_total();
    input.lemma_sort_by_ensures(pair_order());
    later.lemma_sort_by_ensures(pair_order());
    let s = input.sort_by(pair_order());
    lemma_classify_in_extent(a, b, c, d);
    s.to_multiset_ensures();
    input.to_multiset_ensures();
    assert(s.len() == 4);
    lemma_moved_multiset(s, input, kx, ky);
    let ms = s.map_values(f);
    assert forall|i: int, j: int| 0 <= i < j < ms.len() implies #[trigger] pair_order()(
        ms[i],
        ms[j],
    ) by {
        assert(pair_order()(s[i], s[j]));
        assert(in_extent(Coord { x: s[i].0, y: s[i].1 })) by {
            lemma_sorted_in_extent(a, b, c, d, i);
        }
        assert(in_extent(Coord { x: s[j].0, y: s[j].1 })) by {
            lemma_sorted_in_extent(a, b, c, d, j);
        }
    }
    lemma_sorted_unique(ms, later.sort_by(pair_order()), pair_order());
    assert(later.sort_by(pair_order()) =~= ms);
    lemma_sorted_in_extent(a, b, c, d, 0);
    lemma_sorted_in_extent(a, b, c, d, 1);
    lemma_sorted_in_extent(a, b, c, d, 2);
    lemma_sorted_in_extent(a, b, c, d, 3);
}

/// Sorting only reorders the corners, so it keeps them within the extent.
proof fn lemma_sorted_in_extent(a: Coord<i64>, b: Coord<i64>, c: Coord<i64>, d: Coord<i64>, i: int)
    requires
        in_extent(a),
        in_extent(b),
        in_extent(c),
        in_extent(d),
        0 <= i < 4,
    ensures
        seq![xy(a), xy(b), xy(c), xy(d)].sort_by(pair_order()).len() == 4,
        in_extent(
            Coord {
                x: seq![xy(a), xy(b), xy(c), xy(d)].sort_by(pair_order())[i].0,
                y: seq![xy(a), xy(b), xy(c), xy(d)].sort_by(pair_order())[i].1,
            },
        ),
{
    let input = seq![xy(a), xy(b), xy(c), xy(d)];
    let s = input.sort_by(pair_order());
    lemma_pair_order_total();
    input.lemma_sort_by_ensures(pair_order());
    s.to_multiset_ensures();
    input.to_multiset_ensures();
    assert(s.len() == 4);
    assert(s.to_multiset().contains(s[i]));
    assert(input.to_multiset().contains(s[i]));
    assert(input.contains(s[i]));
    let j = choose|j: int| 0 <= j < 4 && input[j] == s[i];
    assert(input[j] == xy(a) || input[j] == xy(b) || input[j] == xy(c) || input[j] == xy(d));
}

/// The cells of the columns `x0 ..= x1`, each with the rows `y0 ..= y1`,
/// column by column.
pub open spec fn block_columns(x0: int, x1: int, y0: int, y1: int) -> Seq<Coord<i16>>
    decreases x1 - x0 + 1,
{
    if x0 > x1 {
        Seq::empty()
    } else {
        rows_of(x0, y0, y1) + block_columns(x0 + 1, x1, y0, y1)
    }
}

/// The axis-aligned rectangle between the whole pixels `(x0, y0)` and
/// `(x1, y1)`, given by its left and its right side.
pub open spec fn upright(x0: int, x1: int, y0: int, y1: int) -> ParallelogramPixels {
    ParallelogramPixels {
        origin_side: (
            Coord { x: (x0 * SCALE) as i64, y: (y0 * SCALE) as i64 },
            Coord { x: (x0 * SCALE) as i64, y: (y1 * SCALE) as i64 },
        ),
        destination_side: (
            Coord { x: (x1 * SCALE) as i64, y: (y0 * SCALE) as i64 },
            Coord { x: (x1 * SCALE) as i64, y: (y1 * SCALE) as i64 },
        ),
    }
}

/// A whole pixel with a bias of less than half a pixel, taken `k` times over
/// `k` pixels, rounds to the whole pixel.
proof fn lemma_round_whole(y: int, bias: int, k: int)
    requires
        k > 0,
        -HALF < bias < HALF,
    ensures
        round_signed((y * SCALE + bias) * k, k * SCALE) == y,
{
    let n = (y * SCALE + bias) * k;
    let d = k * SCALE;
    assert(d > 0) by (nonlinear_arith)
        requires
            k > 0,
            d == k * 10_000_000,
    ;
    if n >= 0 {
        let r = k * (2 * bias + SCALE);
        assert(0 <= r < 2 * d && 2 * n + d == y * (2 * d) + r) by (nonlinear_arith)
            requires
                k > 0,
                -5_000_000 < bias < 5_000_000,
                r == k * (2 * bias + 10_000_000),
                d == k * 10_000_000,
                n == (y * 10_000_000 + bias) * k,
        ;
        lemma_fundamental_div_mod_converse(2 * n + d, 2 * d, y, r);
    } else {
        let r = k * (SCALE - 2 * bias);
        assert(0 <= r < 2 * d && 2 * (-n) + d == (-y) * (2 * d) + r) by (nonlinear_arith)
            requires
                k > 0,
                -5_000_000 < bias < 5_000_000,
                r == k * (10_000_000 - 2 * bias),
                d == k * 10_000_000,
                n == (y * 10_000_000 + bias) * k,
        ;
        lemma_fundamental_div_mod_converse(2 * (-n) + d, 2 * d, -y, r);
    }
}

/// A level edge between whole pixels bounds every column at its own row.
proof fn lemma_level_edge(p0: Coord<i64>, p1: Coord<i64>, y: int, x: int)
    requires
        p0.y == y * SCALE,
        p1.y == y * SCALE,
        p0.x < p1.x,
        p1.x - p0.x >= SCALE,
        -32768 <= y <= 32767,
    ensures
        min_y(p0, p1, x) == y,
        max_y(p0, p1, x) == y,
{
    let dx = p1.x - p0.x;
    assert(0int * dx == 0 && 0int * (lower_sample(p0, p1, x) - p0.x) == 0 && 0int * (upper_sample(
        p0,
        p1,
        x,
    ) - p0.x) == 0);
    lemma_round_whole(y, ROUNDING_BIAS as int, dx);
    lemma_round_whole(y, -ROUNDING_BIAS as int, dx);
}

/// An upright edge between whole pixels bounds its column at its own ends.
proof fn lemma_upright_edge(p0: Coord<i64>, p1: Coord<i64>, y0: int, y1: int, x: int)
    requires
        p0.x == p1.x,
        p0.y == y0 * SCALE,
        p1.y == y1 * SCALE,
        -32768 <= y0 <= 32767,
        -32768 <= y1 <= 32767,
    ensures
        min_y(p0, p1, x) == y0,
        max_y(p0, p1, x) == y1,
{
    lemma_fundamental_div_mod_converse(y0 * SCALE, SCALE as int, y0, 0);
    lemma_fundamental_div_mod_converse(-(y1 * SCALE), SCALE as int, -y1, 0);
}

/// Rasterising an axis-aligned rectangle with whole-pixel corners gives
/// exactly the cells between its sides: each column from the left side to
/// the right, with each row from the bottom to the top.
pub proof fn lemma_upright_rectangle(x0: int, x1: int, y0: int, y1: int)
    requires
        -32768 <= x0 <= x1 <= 32767,
        -32768 <= y0 <= y1 <= 32767,
    ensures
        upright(x0, x1, y0, y1).in_extent(),
        !upright(x0, x1, y0, y1).quad().degenerate(),
        upright(x0, x1, y0, y1).cells() == block_columns(x0, x1, y0, y1),
{
    let shape = upright(x0, x1, y0, y1);
    let a = shape.origin_side.0;
    let b = shape.origin_side.1;
    let c = shape.destination_side.0;
    let d = shape.destination_side.1;
    let input = seq![xy(a), xy(b), xy(c), xy(d)];
    lemma_pair_order_total();
    input.lemma_sort_by_ensures(pair_order());
    assert(a.x == x0 * SCALE && a.y == y0 * SCALE && b.x == x0 * SCALE && b.y == y1 * SCALE);
    assert(c.x == x1 * SCALE && c.y == y0 * SCALE && d.x == x1 * SCALE && d.y == y1 * SCALE);
    let ordered = if x0 == x1 {
        seq![xy(a), xy(c), xy(b), xy(d)]
    } else {
        input
    };
    assert(ordered.to_multiset() =~= input.to_multiset()) by {
        broadcast use to_multiset_build;

        let e = Seq::<(i64, i64)>::empty();
        assert(input =~= e.push(xy(a)).push(xy(b)).push(xy(c)).push(xy(d)));
        assert(seq![xy(a), xy(c), xy(b), xy(d)] =~= e.push(xy(a)).push(xy(c)).push(xy(b)).push(
            xy(d),
        ));
    }
    assert forall|i: int, j: int| 0 <= i < j < ordered.len() implies #[trigger] pair_order()(
        ordered[i],
        ordered[j],
    ) by {
        assert(ordered.len() == 4);
        assert(pair_le(ordered[0], ordered[1]) && pair_le(ordered[0], ordered[2]) && pair_le(
            ordered[0],
            ordered[3],
        ));
        assert(pair_le(ordered[1], ordered[2]) && pair_le(ordered[1], ordered[3]) && pair_le(
            ordered[2],
            ordered[3],
        ));
    }
    assert(sorted_by(ordered, pair_order()));
    lemma_sorted_unique(ordered, input.sort_by(pair_order()), pair_order());
    let q = shape.quad();
    assert(q.l == a && q.r == d);
    assert(q.b == (if y0 == y1 {
        b
    } else {
        c
    }));
    assert(q.t == (if y0 == y1 {
        c
    } else {
        b
    }));
    lemma_fundamental_div_mod_converse(x0 * SCALE, SCALE as int, x0, 0);
    lemma_fundamental_div_mod_converse(x1 * SCALE, SCALE as int, x1, 0);
    assert(q.first_column() == x0 && q.last_column() == x1);
    assert forall|x: int| x0 <= x <= x1 implies #[trigger] q.column_range(x) == (y0, y1) by {
        if x0 == x1 {
            lemma_upright_edge(a, b, y0, y1, x);
            lemma_upright_edge(a, a, y0, y0, x);
            lemma_upright_edge(b, b, y1, y1, x);
        } else {
            lemma_level_edge(a, c, y0, x);
            lemma_level_edge(b, d, y1, x);
        }
    }
    lemma_upright_columns(q, x0, x1, y0, y1);
}

/// Columns that all cover the same rows make a block.
proof fn lemma_upright_columns(q: Quad, x: int, x1: int, y0: int, y1: int)
    requires
        forall|k: int| x <= k <= x1 ==> #[trigger] q.column_range(k) == (y0, y1),
    ensures
        q.cells_from(x, x1) == block_columns(x, x1, y0, y1),
    decreases x1 - x + 1,
{
    if x <= x1 {
        assert(q.column_range(x) == (y0, y1));
        lemma_upright_columns(q, x + 1, x1, y0, y1);
    }
}

/// Scaling both parts of a quotient that is not negative by the same
/// positive factor leaves its floor as it is.
proof fn lemma_div_scaled(a: int, b: int, k: int)
    requires
        a >= 0,
        b > 0,
        k > 0,
    ensures
        (a * k) / (b * k) == a / b,
{
    let q = a / b;
    let r = a % b;
    vstd::arithmetic::div_mod::lemma_fundamental_div_mod(a, b);
    vstd::arithmetic::div_mod::lemma_mod_pos_bound(a, b);
    assert(b * q == q * b) by (nonlinear_arith);
    assert(b * k > 0 && 0 <= r * k < b * k && a * k == q * (b * k) + r * k) by (nonlinear_arith)
        requires
            b > 0,
            k > 0,
            a == q * b + r,
            0 <= r < b,
    ;
    lemma_fundamental_div_mod_converse(a * k, b * k, q, r * k);
}

/// Scaling both parts of a quotient by the same positive factor leaves its
/// rounding as it is.
proof fn lemma_round_scaled(n: int, d: int, k: int)
    requires
        d > 0,
        k > 0,
    ensures
        round_signed(n * k, d * k) == round_ratio(n, d),
{
    assert(d * k > 0 && (n >= 0 ==> n * k >= 0) && (n < 0 ==> n * k < 0)) by (nonlinear_arith)
        requires
            d > 0,
            k > 0,
    ;
    if n >= 0 {
        assert(2 * (n * k) + d * k == (2 * n + d) * k && 2 * (d * k) == (2 * d) * k)
            by (nonlinear_arith);
        lemma_div_scaled(2 * n + d, 2 * d, k);
    } else {
        assert(2 * (-(n * k)) + d * k == (2 * (-n) + d) * k && 2 * (d * k) == (2 * d) * k)
            by (nonlinear_arith);
        lemma_div_scaled(2 * (-n) + d, 2 * d, k);
    }
}

/// A level edge that is not upright bounds every column at the rounded
/// height of the edge, biased up for the lower bound and down for the upper.
proof fn lemma_level_bounds(p0: Coord<i64>, p1: Coord<i64>, x: int)
    requires
        p0.y == p1.y,
        p1.x - p0.x >= VERTICAL_TOLERANCE,
    ensures
        min_y(p0, p1, x) == clamp16(round_ratio(p0.y + ROUNDING_BIAS, SCALE as int)),
        max_y(p0, p1, x) == clamp16(round_ratio(p0.y - ROUNDING_BIAS, SCALE as int)),
{
    let dx = p1.x - p0.x;
    assert(0int * dx == 0 && 0int * (lower_sample(p0, p1, x) - p0.x) == 0 && 0int * (upper_sample(
        p0,
        p1,
        x,
    ) - p0.x) == 0);
    lemma_round_scaled(p0.y + ROUNDING_BIAS, SCALE as int, dx);
    lemma_round_scaled(p0.y - ROUNDING_BIAS, SCALE as int, dx);
    assert(dx * SCALE == SCALE * dx) by (nonlinear_arith);
}

/// The corners in sorted order are the given corners, and stand in
/// ascending order by x, then y.
proof fn lemma_sorted_corners(a: Coord<i64>, b: Coord<i64>, c: Coord<i64>, d: Coord<i64>)
    ensures
        ({
            let s = seq![xy(a), xy(b), xy(c), xy(d)].sort_by(pair_order());
            &&& s.len() == 4
            &&& forall|i: int|
                0 <= i < 4 ==> (#[trigger] s[i]) == xy(a) || s[i] == xy(b) || s[i] == xy(c) || s[i]
                    == xy(d)
            &&& pair_le(s[0], s[1])
            &&& pair_le(s[1], s[2])
            &&& pair_le(s[2], s[3])
        }),
{
    let input = seq![xy(a), xy(b), xy(c), xy(d)];
    let s = input.sort_by(pair_order());
    lemma_pair_order_total();
    input.lemma_sort_by_ensures(pair_order());
    s.to_multiset_ensures();
    input.to_multiset_ensures();
    assert(s.len() == 4);
    assert forall|i: int| 0 <= i < 4 implies (#[trigger] s[i]) == xy(a) || s[i] == xy(b) || s[i]
        == xy(c) || s[i] == xy(d) by {
        assert(s.to_multiset().contains(s[i]));
        assert(input.to_multiset().contains(s[i]));
        assert(input.contains(s[i]));
        let j = choose|j: int| 0 <= j < 4 && input[j] == s[i];
        assert(input[j] == xy(a) || input[j] == xy(b) || input[j] == xy(c) || input[j] == xy(d));
    }
    assert(pair_order()(s[0], s[1]));
    assert(pair_order()(s[1], s[2]));
    assert(pair_order()(s[2], s[3]));
}

impl ParallelogramPixels {
    /// All four corners stand at the same x.
    pub open spec fn upright_line(self, x: int) -> bool {
        &&& self.origin_side.0.x == x
        &&& self.origin_side.1.x == x
        &&& self.destination_side.0.x == x
        &&& self.destination_side.1.x == x
    }

    /// All four corners stand at the same y.
    pub open spec fn level_line(self, y: int) -> bool {
        &&& self.origin_side.0.y == y
        &&& self.origin_side.1.y == y
        &&& self.destination_side.0.y == y
        &&& self.destination_side.1.y == y
    }

    /// A quadrilateral that has collapsed onto an upright line, and is not
    /// too close to singular, covers one column: at least one cell, and the
    /// rows from its lowest to its highest without a gap.
    pub proof fn lemma_upright_line(self, x: int)
        requires
            self.in_extent(),
            self.upright_line(x),
            !self.quad().degenerate(),
        ensures
            self.quad().last_column() == self.quad().first_column(),
            self.quad().column_range(self.quad().first_column()).0 <= self.quad().column_range(
                self.quad().first_column(),
            ).1,
            self.cells() == rows_of(
                self.quad().first_column(),
                self.quad().column_range(self.quad().first_column()).0,
                self.quad().column_range(self.quad().first_column()).1,
            ),
    {
        lemma_sorted_corners(
            self.origin_side.0,
            self.origin_side.1,
            self.destination_side.0,
            self.destination_side.1,
        );
        let q = self.quad();
        let col = q.first_column();
        assert(q.l.x == x && q.b.x == x && q.t.x == x && q.r.x == x);
        assert(q.l.y <= q.b.y <= q.t.y <= q.r.y);
        assert(q.topology() == Topology::Diamond);
        assert(q.cells_from(col + 1, col) =~= Seq::empty());
        assert(q.cells() =~= q.column_cells(col));
    }

    /// A quadrilateral that has collapsed onto a level line covers one row,
    /// with a cell in every column from its first to its last, where it is
    /// not too close to singular, its lower and its upper edge are not
    /// upright, and the line is not within the rounding bias of a half pixel.
    pub proof fn lemma_level_line(self, y: int)
        requires
            self.in_extent(),
            self.level_line(y),
            !self.quad().degenerate(),
            self.quad().t.x - self.quad().l.x >= VERTICAL_TOLERANCE,
            self.quad().r.x - self.quad().b.x >= VERTICAL_TOLERANCE,
            round_ratio(y + ROUNDING_BIAS, SCALE as int) == round_ratio(
                y - ROUNDING_BIAS,
                SCALE as int,
            ),
        ensures
            self.quad().first_column() <= self.quad().last_column(),
            self.cells() == block_columns(
                self.quad().first_column(),
                self.quad().last_column(),
                clamp16(round_ratio(y + ROUNDING_BIAS, SCALE as int)),
                clamp16(round_ratio(y + ROUNDING_BIAS, SCALE as int)),
            ),
    {
        lemma_sorted_corners(
            self.origin_side.0,
            self.origin_side.1,
            self.destination_side.0,
            self.destination_side.1,
        );
        let q = self.quad();
        let row = clamp16(round_ratio(y + ROUNDING_BIAS, SCALE as int));
        assert(q.l.y == y && q.b.y == y && q.t.y == y && q.r.y == y);
        assert(q.l.x <= q.b.x <= q.t.x <= q.r.x);
        assert forall|k: int| q.first_column() <= k <= q.last_column() implies #[trigger] q.column_range(
            k,
        ) == (row, row) by {
            lemma_level_bounds(q.l, q.t, k);
            lemma_level_bounds(q.b, q.r, k);
            if q.t.x == q.b.x {
                lemma_level_bounds(q.l, q.b, k);
                lemma_level_bounds(q.t, q.r, k);
            }
        }
        lemma_upright_columns(q, q.first_column(), q.last_column(), row, row);
    }
}

} // verus!
