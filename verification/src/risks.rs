//! The risk map: a grid of risk weights with an inactive border, the cost of
//! flying a corridor between two of its cells, and the cells near a cell.

use crate::coord::{in_extent, snapped, Coord};
use crate::corridor::{
    corridor, corridor_sides, half_width, half_width_px, lemma_corridor_opposite, offset_component,
    MAX_HALF_WIDTH,
};
use crate::fixed::{int_sqrt, isqrt, lemma_square_monotone, SCALE};
use crate::grid::{
    block_cells, lemma_block_bounds, lemma_block_contains, lemma_block_index, lemma_block_len,
    lemma_without, lemma_without_keeps, without, BlockCursor,
};
use crate::raster::{GeometryError, ParallelogramPixels};
use vstd::prelude::*;

verus! {

/// Largest accepted scale: a million metres to the pixel, in length units.
pub const MAX_M_PER_PIXEL: u64 = 10_000_000_000_000;

/// Most cells that one corridor can cover.
pub const MAX_CELLS: u64 = 0x1_0000_0000;

/// Longest edge between two cells of a grid, in length units.
pub const MAX_LENGTH: u64 = 1_000_000_000_000_000_000;

/// Why a risk map cannot be used.
#[derive(Clone, Copy, PartialEq, Eq, Debug)]
pub enum ConfigError {
    /// The grid is empty, has rows of unequal length, or is larger than
    /// 32767 cells along an axis.
    Shape,
    /// The border offset is negative, or leaves no usable cell.
    Offset,
    /// The scale is zero or above [`MAX_M_PER_PIXEL`].
    Scale,
    /// A risk weight is negative.
    Risk,
    /// The origin or the destination of a search lies outside the valid domain.
    Endpoint,
}

/// A rectangular grid of risk weights, `map[y][x]`, with the length of a pixel
/// in units of a ten-millionth of a metre and the width of the inactive border.
pub struct RiskMap {
    pub map: Vec<Vec<i32>>,
    pub m_per_pixel: u64,
    pub offset: i16,
}

impl RiskMap {
    /// Number of rows of the grid.
    pub open spec fn rows(&self) -> int {
        self.map@.len() as int
    }

    /// Number of columns of the grid.
    pub open spec fn cols(&self) -> int {
        if self.map@.len() > 0 {
            self.map@[0]@.len() as int
        } else {
            0
        }
    }

    /// The grid is a non-empty rectangle of at most 32767 cells along each axis.
    pub open spec fn rectangular(&self) -> bool {
        &&& 1 <= self.rows() <= 32767
        &&& 1 <= self.cols() <= 32767
        &&& forall|i: int| 0 <= i < self.rows() ==> (#[trigger] self.map@[i])@.len() == self.cols()
    }

    /// The border is not negative and leaves a usable cell.
    pub open spec fn margin_ok(&self) -> bool {
        &&& 0 <= self.offset
        &&& self.rows() - 2 * self.offset >= 1
        &&& self.cols() - 2 * self.offset >= 1
    }

    /// The scale is positive and within its limit.
    pub open spec fn scale_ok(&self) -> bool {
        1 <= self.m_per_pixel <= MAX_M_PER_PIXEL
    }

    /// No risk weight is negative.
    pub open spec fn risks_ok(&self) -> bool {
        forall|i: int, j: int|
            0 <= i < self.rows() && 0 <= j < self.map@[i]@.len() ==> (#[trigger] self.map@[i]@[j])
                >= 0
    }

    /// The map can be used.
    pub open spec fn wf(&self) -> bool {
        &&& self.rectangular()
        &&& self.margin_ok()
        &&& self.scale_ok()
        &&& self.risks_ok()
    }

    /// The first reason, if any, for which the map cannot be used.
    pub open spec fn fault(&self) -> Option<ConfigError> {
        if !self.rectangular() {
            Some(ConfigError::Shape)
        } else if !self.margin_ok() {
            Some(ConfigError::Offset)
        } else if !self.scale_ok() {
            Some(ConfigError::Scale)
        } else if !self.risks_ok() {
            Some(ConfigError::Risk)
        } else {
            None
        }
    }

    /// Usable height: the rows without the border on both sides.
    pub open spec fn spec_height(&self) -> int {
        self.rows() - 2 * self.offset
    }

    /// Usable width: the columns without the border on both sides.
    pub open spec fn spec_width(&self) -> int {
        self.cols() - 2 * self.offset
    }

    /// Whether a cell lies on the grid.
    pub open spec fn in_grid(&self, c: Coord<i16>) -> bool {
        0 <= c.x < self.cols() && 0 <= c.y < self.rows()
    }

    /// Whether a cell lies in the valid domain: on the grid, outside the border.
    pub open spec fn in_domain(&self, c: Coord<i16>) -> bool {
        &&& self.offset <= c.x < self.cols() - self.offset
        &&& self.offset <= c.y < self.rows() - self.offset
    }

    /// The risk weight of a cell of the grid.
    pub open spec fn weight(&self, c: Coord<i16>) -> int
        recommends
            self.in_grid(c),
    {
        self.map@[c.y as int]@[c.x as int] as int
    }

    /// Checks the map: `Ok` exactly when it can be used, else the first fault.
    pub fn validate(&self) -> (checked: Result<(), ConfigError>)
        ensures
            checked is Ok <==> self.wf(),
            checked matches Err(e) ==> self.fault() == Some(e),
    {
        let rows: usize = self.map.len();
        if rows < 1 || rows > 32767 {
            return Err(ConfigError::Shape);
        }
        let cols: usize = self.map[0].len();
        if cols < 1 || cols > 32767 {
            return Err(ConfigError::Shape);
        }
        let mut i: usize = 1;
        while i < rows
            invariant
                1 <= i <= rows,
                rows == self.map@.len(),
                cols == self.map@[0]@.len(),
                forall|k: int| 0 <= k < i ==> (#[trigger] self.map@[k])@.len() == cols,
            decreases rows - i,
        {
            if self.map[i].len() != cols {
                return Err(ConfigError::Shape);
            }
            i = i + 1;
        }
        assert(self.rectangular());
        if self.offset < 0 || (rows as i32) - 2 * (self.offset as i32) < 1 || (cols as i32) - 2 * (
        self.offset as i32) < 1 {
            return Err(ConfigError::Offset);
        }
        if self.m_per_pixel < 1 || self.m_per_pixel > MAX_M_PER_PIXEL {
            return Err(ConfigError::Scale);
        }
        let mut y: usize = 0;
        while y < rows
            invariant
                y <= rows,
                rows == self.map@.len(),
                self.rectangular(),
                self.margin_ok(),
                self.scale_ok(),
                cols == self.cols(),
                forall|i: int, j: int|
                    0 <= i < y && 0 <= j < cols ==> (#[trigger] self.map@[i]@[j]) >= 0,
            decreases rows - y,
        {
            let mut x: usize = 0;
            while x < cols
                invariant
                    x <= cols,
                    y < rows,
                    rows == self.map@.len(),
                    self.rectangular(),
                    self.margin_ok(),
                    self.scale_ok(),
                    cols == self.cols(),
                    forall|i: int, j: int|
                        0 <= i < y && 0 <= j < cols ==> (#[trigger] self.map@[i]@[j]) >= 0,
                    forall|j: int| 0 <= j < x ==> (#[trigger] self.map@[y as int]@[j]) >= 0,
                decreases cols - x,
            {
                assert(self.map@[y as int]@.len() == cols);
                if self.map[y][x] < 0 {
                    assert(self.map@[y as int]@[x as int] < 0);
                    return Err(ConfigError::Risk);
                }
                x = x + 1;
            }
            y = y + 1;
        }
        assert(self.risks_ok());
        Ok(())
    }

    /// Usable height of the map.
    pub fn height(&self) -> (h: i16)
        requires
            self.rectangular(),
            self.margin_ok(),
        ensures
            h == self.spec_height(),
            h >= 1,
    {
        (self.map.len() as i32 - 2 * (self.offset as i32)) as i16
    }

    /// Usable width of the map.
    pub fn width(&self) -> (w: i16)
        requires
            self.rectangular(),
            self.margin_ok(),
        ensures
            w == self.spec_width(),
            w >= 1,
    {
        (self.map[0].len() as i32 - 2 * (self.offset as i32)) as i16
    }

    /// The risk weight of a cell of the grid.
    pub fn risk_at(&self, coord: Coord<i16>) -> (risk: i32)
        requires
            self.rectangular(),
            self.in_grid(coord),
        ensures
            risk == self.weight(coord),
    {
        assert(self.map@[coord.y as int]@.len() == self.cols());
        self.map[coord.y as usize][coord.x as usize]
    }

    /// Whether a cell lies in the valid domain, computed.
    pub fn contains(&self, coord: Coord<i16>) -> (inside: bool)
        requires
            self.rectangular(),
            self.margin_ok(),
        ensures
            inside == self.in_domain(coord),
    {
        let off: i32 = self.offset as i32;
        let rows: i32 = self.map.len() as i32;
        let cols: i32 = self.map[0].len() as i32;
        off <= coord.x as i32 && (coord.x as i32) < cols - off && off <= coord.y as i32 && (
        coord.y as i32) < rows - off
    }
}

/// The larger of two integers.
pub open spec fn int_max(a: int, b: int) -> int {
    if a >= b {
        a
    } else {
        b
    }
}

/// The smaller of two integers.
pub open spec fn int_min(a: int, b: int) -> int {
    if a <= b {
        a
    } else {
        b
    }
}

impl RiskMap {
    /// The valid cells within `limit` pixels of `p` along both axes, `p`
    /// itself among them if it is valid, in row-major order.
    pub open spec fn surroundings(&self, p: Coord<i16>, limit: i16) -> Seq<Coord<i16>> {
        let x0 = int_max(self.offset as int, p.x - limit);
        let x1 = int_min(self.cols() - self.offset - 1, p.x + limit);
        let y0 = int_max(self.offset as int, p.y - limit);
        let y1 = int_min(self.rows() - self.offset - 1, p.y + limit);
        if x0 <= x1 {
            block_cells(x0, x1, y0, y1)
        } else {
            Seq::empty()
        }
    }

    /// The neighbours of `p`: every valid cell other than `p` within `limit`
    /// pixels of it along both axes, in row-major order.
    pub open spec fn neighbours(&self, p: Coord<i16>, limit: i16) -> Seq<Coord<i16>> {
        without(self.surroundings(p, limit), p)
    }

    /// Every valid cell, in row-major order.
    pub open spec fn all_points(&self) -> Seq<Coord<i16>> {
        block_cells(
            self.offset as int,
            self.cols() - self.offset - 1,
            self.offset as int,
            self.rows() - self.offset - 1,
        )
    }

    /// A cursor over the neighbours of `p` within `search_limit` pixels.
    pub fn neighbours_within(&self, p: Coord<i16>, search_limit: i16) -> (cursor: NeighboursIter)
        requires
            self.rectangular(),
            self.margin_ok(),
        ensures
            cursor.wf(),
            cursor@ == self.neighbours(p, search_limit),
    {
        NeighboursIter::new(self, search_limit, p)
    }

    /// A cursor over every valid cell, row by row.
    pub fn all_points_iterator(&self) -> (cursor: AllPointsIter)
        requires
            self.rectangular(),
            self.margin_ok(),
        ensures
            cursor.wf(),
            cursor@ == self.all_points(),
    {
        AllPointsIter::new(self)
    }
}

/// A cursor over the neighbours of a cell.
pub struct NeighboursIter {
    cursor: BlockCursor,
    p: Coord<i16>,
}

impl NeighboursIter {
    /// The cursor is in a state that `neighbours_within` or `next` left it in.
    pub closed spec fn wf(self) -> bool {
        self.cursor.wf()
    }

    /// The neighbours that are still to come.
    pub closed spec fn view(self) -> Seq<Coord<i16>> {
        without(self.cursor@, self.p)
    }

    fn new(map: &RiskMap, search_limit: i16, p: Coord<i16>) -> (it: Self)
        requires
            map.rectangular(),
            map.margin_ok(),
        ensures
            it.wf(),
            it@ == map.neighbours(p, search_limit),
    {
        let off: i32 = map.offset as i32;
        let width: i32 = map.width() as i32;
        let height: i32 = map.height() as i32;
        let left: i32 = p.x as i32 - search_limit as i32;
        let right: i32 = p.x as i32 + search_limit as i32;
        let low: i32 = p.y as i32 - search_limit as i32;
        let high: i32 = p.y as i32 + search_limit as i32;
        let x_from: i32 = if off >= left {
            off
        } else {
            left
        };
        let x_to: i32 = if off + width - 1 <= right {
            off + width - 1
        } else {
            right
        };
        let y_from: i32 = if off >= low {
            off
        } else {
            low
        };
        let y_to: i32 = if off + height - 1 <= high {
            off + height - 1
        } else {
            high
        };
        if x_from > x_to {
            NeighboursIter { cursor: BlockCursor::new(0, -1, 0, -1), p }
        } else {
            NeighboursIter { cursor: BlockCursor::new(x_from, x_to, y_from, y_to), p }
        }
    }

    /// The next neighbour, or `None` behind the last.
    pub fn next(&mut self) -> (cell: Option<Coord<i16>>)
        requires
            old(self).wf(),
        ensures
            final(self).wf(),
            match cell {
                Some(c) => old(self)@.len() > 0 && c == old(self)@[0] && final(self)@ == old(
                    self,
                )@.drop_first(),
                None => old(self)@.len() == 0 && final(self)@.len() == 0,
            },
    {
        loop
            invariant
                self.wf(),
                self@ == old(self)@,
            decreases self.cursor@.len(),
        {
            let ghost before = self.cursor@;
            match self.cursor.next() {
                None => {
                    return None;
                },
                Some(c) => {
                    if c.x != self.p.x || c.y != self.p.y {
                        assert(without(before, self.p) =~= seq![c] + without(
                            before.drop_first(),
                            self.p,
                        ));
                        assert(self@ =~= old(self)@.drop_first());
                        return Some(c);
                    }
                },
            }
        }
    }
}

/// A cursor over every valid cell of a map.
pub struct AllPointsIter {
    cursor: BlockCursor,
}

impl AllPointsIter {
    /// The cursor is in a state that `all_points_iterator` or `next` left it in.
    pub closed spec fn wf(self) -> bool {
        self.cursor.wf()
    }

    /// The cells that are still to come.
    pub closed spec fn view(self) -> Seq<Coord<i16>> {
        self.cursor@
    }

    fn new(map: &RiskMap) -> (it: Self)
        requires
            map.rectangular(),
            map.margin_ok(),
        ensures
            it.wf(),
            it@ == map.all_points(),
    {
        let off: i32 = map.offset as i32;
        let width: i32 = map.width() as i32;
        let height: i32 = map.height() as i32;
        AllPointsIter { cursor: BlockCursor::new(off, off + width - 1, off, off + height - 1) }
    }

    /// The next cell, or `None` behind the last.
    pub fn next(&mut self) -> (cell: Option<Coord<i16>>)
        requires
            old(self).wf(),
        ensures
            final(self).wf(),
            match cell {
                Some(c) => old(self)@.len() > 0 && c == old(self)@[0] && final(self)@ == old(
                    self,
                )@.drop_first(),
                None => old(self)@.len() == 0 && final(self)@.len() == 0,
            },
    {
        self.cursor.next()
    }
}

impl RiskMap {
    /// The summed risk weight of the cells, out of `cells`, that lie in the
    /// valid domain.
    pub open spec fn risk_of_cells(&self, cells: Seq<Coord<i16>>) -> int
        decreases cells.len(),
    {
        if cells.len() == 0 {
            0
        } else {
            (if self.in_domain(cells[0]) {
                self.weight(cells[0])
            } else {
                0
            }) + self.risk_of_cells(cells.drop_first())
        }
    }

    /// The risk of flying from `p1` to `p2` in a corridor of half-width `r_m`
    /// length units: the summed weight of the valid cells that the corridor
    /// covers, or the reason for which the corridor cannot be rasterised.
    pub open spec fn spec_risk(&self, p1: Coord<i16>, p2: Coord<i16>, r_m: u64) -> Result<
        int,
        GeometryError,
    > {
        let w = half_width_px(r_m, self.m_per_pixel);
        if w > MAX_HALF_WIDTH {
            Err(GeometryError::TooWide)
        } else if corridor(p1, p2, w).quad().degenerate() {
            Err(GeometryError::Degenerate)
        } else {
            Ok(self.risk_of_cells(corridor(p1, p2, w).cells()))
        }
    }

    /// The distance from `p1` to `p2` in length units, rounded down, and one
    /// unit more, so that no length is zero.
    pub open spec fn spec_length(&self, p1: Coord<i16>, p2: Coord<i16>) -> int {
        int_sqrt(
            ((p1.x - p2.x) * (p1.x - p2.x) + (p1.y - p2.y) * (p1.y - p2.y)) * (self.m_per_pixel
                * self.m_per_pixel),
        ) + 1
    }

    /// The risk summed over valid cells is not negative, and at most the
    /// largest weight for each cell.
    pub proof fn lemma_risk_of_cells_bounds(&self, cells: Seq<Coord<i16>>)
        requires
            self.wf(),
        ensures
            0 <= self.risk_of_cells(cells) <= cells.len() * 0x7fff_ffff,
        decreases cells.len(),
    {
        if cells.len() > 0 {
            self.lemma_risk_of_cells_bounds(cells.drop_first());
            if self.in_domain(cells[0]) {
                assert(self.map@[cells[0].y as int]@.len() == self.cols());
            }
        }
    }

    /// The two sides of the corridor from `p1` to `p2` with a half-width of
    /// `r_m` length units, on a grid of `m_per_pixel` length units to the pixel.
    pub fn parallelogram_from_two_points(
        p1: Coord<i16>,
        p2: Coord<i16>,
        r_m: u64,
        m_per_pixel: u64,
    ) -> (sides: Result<((Coord<i64>, Coord<i64>), (Coord<i64>, Coord<i64>)), GeometryError>)
        requires
            m_per_pixel > 0,
        ensures
            half_width_px(r_m, m_per_pixel) > MAX_HALF_WIDTH ==> sides == Err::<
                ((Coord<i64>, Coord<i64>), (Coord<i64>, Coord<i64>)),
                _,
            >(GeometryError::TooWide),
            half_width_px(r_m, m_per_pixel) <= MAX_HALF_WIDTH ==> sides == Ok::<_, GeometryError>(
                corridor_sides(p1, p2, half_width_px(r_m, m_per_pixel)),
            ),
            sides matches Ok(s) ==> in_extent(s.0.0) && in_extent(s.0.1) && in_extent(s.1.0)
                && in_extent(s.1.1),
    {
        let w: u64 = half_width(r_m, m_per_pixel);
        if w > MAX_HALF_WIDTH {
            return Err(GeometryError::TooWide);
        }
        let dx: i32 = p2.x as i32 - p1.x as i32;
        let dy: i32 = p2.y as i32 - p1.y as i32;
        let ox: i64;
        let oy: i64;
        if dx == 0 && dy == 0 {
            ox = 0;
            oy = (w as i64) * SCALE;
        } else {
            assert(0 <= dx * dx <= 65535 * 65535 && 0 <= dy * dy <= 65535 * 65535
                && dx * dx + dy * dy > 0) by (nonlinear_arith)
                requires
                    -65535 <= dx <= 65535,
                    -65535 <= dy <= 65535,
                    dx != 0 || dy != 0,
            ;
            let n: u64 = (dx as i64 * dx as i64 + dy as i64 * dy as i64) as u64;
            let mx: i64 = offset_component(dy, n, w);
            let my: i64 = offset_component(dx, n, w);
            ox = if dy > 0 {
                -mx
            } else {
                mx
            };
            oy = if dx >= 0 {
                my
            } else {
                -my
            };
        }
        let x1: i64 = (p1.x as i64) * SCALE;
        let y1: i64 = (p1.y as i64) * SCALE;
        let x2: i64 = (p2.x as i64) * SCALE;
        let y2: i64 = (p2.y as i64) * SCALE;
        Ok(
            (
                (Coord { x: x1 + ox, y: y1 + oy }, Coord { x: x1 - ox, y: y1 - oy }),
                (Coord { x: x2 + ox, y: y2 + oy }, Coord { x: x2 - ox, y: y2 - oy }),
            ),
        )
    }

    /// The summed risk weight of the valid cells that the quadrilateral
    /// between the two sides covers.
    pub fn parallelogram_risk(
        &self,
        origin_side: (Coord<i64>, Coord<i64>),
        destination_side: (Coord<i64>, Coord<i64>),
    ) -> (risk: Result<u64, GeometryError>)
        requires
            self.wf(),
            in_extent(origin_side.0),
            in_extent(origin_side.1),
            in_extent(destination_side.0),
            in_extent(destination_side.1),
        ensures
            ({
                let shape = ParallelogramPixels {
                    origin_side: (snapped(origin_side.0), snapped(origin_side.1)),
                    destination_side: (snapped(destination_side.0), snapped(destination_side.1)),
                };
                match risk {
                    Ok(pop) => !shape.quad().degenerate() && pop == self.risk_of_cells(
                        shape.cells(),
                    ) && pop <= MAX_CELLS * 0x7fff_ffff,
                    Err(e) => shape.quad().degenerate() && e == GeometryError::Degenerate,
                }
            }),
    {
        let rect = ParallelogramPixels::new(origin_side, destination_side);
        let mut cursor = match rect.iter() {
            Ok(cursor) => cursor,
            Err(e) => {
                return Err(e);
            },
        };
        let ghost all = cursor@;
        proof {
            rect.quad().lemma_cells_len();
            self.lemma_risk_of_cells_bounds(all);
        }
        let mut pop: u64 = 0;
        loop
            invariant
                self.wf(),
                cursor.wf(),
                all.len() <= 0x1_0000_0000,
                cursor@.len() <= all.len(),
                pop + self.risk_of_cells(cursor@) == self.risk_of_cells(all),
                pop <= (all.len() - cursor@.len()) * 0x7fff_ffff,
            ensures
                pop == self.risk_of_cells(all),
                pop <= 0x1_0000_0000 * 0x7fff_ffff,
            decreases cursor@.len(),
        {
            match cursor.next() {
                None => {
                    break ;
                },
                Some(coord) => {
                    if self.contains(coord) {
                        let at: i32 = self.risk_at(coord);
                        assert(at >= 0) by {
                            assert(self.map@[coord.y as int]@.len() == self.cols());
                        }
                        pop = pop + at as u64;
                    }
                },
            }
        }
        Ok(pop)
    }

    /// The risk of flying from `p1` to `p2` in a corridor of half-width `r_m`
    /// length units.
    pub fn risk(&self, p1: Coord<i16>, p2: Coord<i16>, r_m: u64) -> (risk: Result<
        u64,
        GeometryError,
    >)
        requires
            self.wf(),
        ensures
            match risk {
                Ok(pop) => self.spec_risk(p1, p2, r_m) == Ok::<int, GeometryError>(pop as int)
                    && pop <= MAX_CELLS * 0x7fff_ffff,
                Err(e) => self.spec_risk(p1, p2, r_m) == Err::<int, GeometryError>(e),
            },
    {
        let sides = match Self::parallelogram_from_two_points(p1, p2, r_m, self.m_per_pixel) {
            Ok(sides) => sides,
            Err(e) => {
                return Err(e);
            },
        };
        self.parallelogram_risk(sides.0, sides.1)
    }

    /// The length of the edge from `p1` to `p2` in length units.
    pub fn length_m(&self, p1: Coord<i16>, p2: Coord<i16>) -> (length: u64)
        requires
            self.scale_ok(),
        ensures
            length == self.spec_length(p1, p2),
            1 <= length <= MAX_LENGTH,
    {
        let dx: i64 = p1.x as i64 - p2.x as i64;
        let dy: i64 = p1.y as i64 - p2.y as i64;
        assert(0 <= dx * dx <= 65535 * 65535 && 0 <= dy * dy <= 65535 * 65535) by (nonlinear_arith)
            requires
                -65535 <= dx <= 65535,
                -65535 <= dy <= 65535,
        ;
        let n: u128 = (dx * dx + dy * dy) as u128;
        let m: u128 = self.m_per_pixel as u128;
        assert(m * m <= 10_000_000_000_000 * 10_000_000_000_000) by (nonlinear_arith)
            requires
                0 <= m <= 10_000_000_000_000,
        ;
        assert(n * (m * m) <= 8589672450 * (10_000_000_000_000 * 10_000_000_000_000))
            by (nonlinear_arith)
            requires
                0 <= n <= 8589672450,
                0 <= m * m <= 10_000_000_000_000 * 10_000_000_000_000,
        ;
        let r: u128 = isqrt(n * (m * m));
        proof {
            if r >= 1_000_000_000_000_000_000 {
                if r > 1_000_000_000_000_000_000 {
                    lemma_square_monotone(1_000_000_000_000_000_000, r as int);
                }
                assert(1_000_000_000_000_000_000int * 1_000_000_000_000_000_000int > 8589672450
                    * (10_000_000_000_000int * 10_000_000_000_000int));
            }
        }
        (r + 1) as u64
    }
}

impl RiskMap {
    /// No risk weight of the grid is above `w`.
    pub open spec fn bounded_by(&self, w: int) -> bool {
        forall|i: int, j: int|
            0 <= i < self.rows() && 0 <= j < self.map@[i]@.len() ==> (#[trigger] self.map@[i]@[j])
                <= w
    }

    /// `w` is the largest risk weight of the grid.
    pub open spec fn is_peak(&self, w: int) -> bool {
        &&& self.bounded_by(w)
        &&& exists|i: int, j: int|
            0 <= i < self.rows() && 0 <= j < self.map@[i]@.len() && (#[trigger] self.map@[i]@[j])
                == w
    }

    /// The largest risk weight of the grid.
    pub open spec fn peak(&self) -> int {
        choose|w: int| self.is_peak(w)
    }

    /// A grid has at most one largest weight.
    pub proof fn lemma_peak_is(&self, w: int)
        requires
            self.is_peak(w),
        ensures
            self.peak() == w,
    {
        let v = self.peak();
        assert(self.is_peak(v));
    }

    /// The largest risk weight of the grid, computed.
    pub fn max_risk(&self) -> (w: i32)
        requires
            self.rectangular(),
        ensures
            self.is_peak(w as int),
            w == self.peak(),
    {
        let rows: usize = self.map.len();
        let cols: usize = self.map[0].len();
        let mut best: i32 = self.map[0][0];
        let ghost mut at: (int, int) = (0, 0);
        let mut y: usize = 0;
        while y < rows
            invariant
                y <= rows,
                rows == self.map@.len(),
                self.rectangular(),
                cols == self.cols(),
                0 <= at.0 < rows && 0 <= at.1 < cols && self.map@[at.0]@[at.1] == best,
                forall|i: int, j: int|
                    0 <= i < y && 0 <= j < cols ==> (#[trigger] self.map@[i]@[j]) <= best,
            decreases rows - y,
        {
            let mut x: usize = 0;
            while x < cols
                invariant
                    x <= cols,
                    y < rows,
                    rows == self.map@.len(),
                    self.rectangular(),
                    cols == self.cols(),
                    0 <= at.0 < rows && 0 <= at.1 < cols && self.map@[at.0]@[at.1] == best,
                    forall|i: int, j: int|
                        0 <= i < y && 0 <= j < cols ==> (#[trigger] self.map@[i]@[j]) <= best,
                    forall|j: int| 0 <= j < x ==> (#[trigger] self.map@[y as int]@[j]) <= best,
                decreases cols - x,
            {
                assert(self.map@[y as int]@.len() == cols);
                if self.map[y][x] > best {
                    best = self.map[y][x];
                    proof {
                        at = (y as int, x as int);
                    }
                }
                x = x + 1;
            }
            y = y + 1;
        }
        proof {
            assert(self.map@[at.0]@.len() == cols);
            assert(self.bounded_by(best as int));
            self.lemma_peak_is(best as int);
        }
        best
    }

    /// The risk summed over valid cells is at most the largest weight for each cell.
    pub proof fn lemma_risk_of_cells_peak(&self, cells: Seq<Coord<i16>>)
        requires
            self.wf(),
        ensures
            0 <= self.risk_of_cells(cells) <= cells.len() * self.peak(),
            0 <= self.peak(),
        decreases cells.len(),
    {
        let w = self.peak();
        assert(self.map@[0]@.len() == self.cols());
        let first = self.map@[0]@[0];
        assert(first >= 0);
        self.lemma_exists_peak();
        assert(self.is_peak(w));
        assert(first <= w);
        if cells.len() > 0 {
            self.lemma_risk_of_cells_peak(cells.drop_first());
            if self.in_domain(cells[0]) {
                assert(self.map@[cells[0].y as int]@.len() == self.cols());
                assert(self.map@[cells[0].y as int]@[cells[0].x as int] <= w);
            }
            assert(cells.len() * w == w + (cells.len() - 1) * w) by (nonlinear_arith);
        } else {
            assert(cells.len() * w == 0) by (nonlinear_arith)
                requires
                    cells.len() == 0,
            ;
        }
    }

    /// A usable grid has a largest weight.
    pub proof fn lemma_exists_peak(&self)
        requires
            self.rectangular(),
        ensures
            self.is_peak(self.peak()),
    {
        assert(self.rows() * self.cols() >= 1) by (nonlinear_arith)
            requires
                self.rows() >= 1,
                self.cols() >= 1,
        ;
        self.lemma_peak_below(self.rows() * self.cols());
    }

    /// Among the first `n` cells in row-major order, one holds a weight that
    /// none of them exceeds; with every cell counted, that weight is the peak.
    proof fn lemma_peak_below(&self, n: int)
        requires
            self.rectangular(),
            1 <= n <= self.rows() * self.cols(),
        ensures
            exists|w: int| #[trigger]
                self.peak_of_prefix(n, w),
            n == self.rows() * self.cols() ==> self.is_peak(self.peak()),
        decreases n,
    {
        let c = self.cols();
        if n == 1 {
            assert(self.map@[0]@.len() == c);
            let w = self.map@[0]@[0] as int;
            assert(0int / c == 0 && 0int % c == 0) by (nonlinear_arith)
                requires
                    c > 0,
            ;
            assert(self.peak_of_prefix(1, w));
        } else {
            self.lemma_peak_below(n - 1);
            let before = choose|w: int| #[trigger] self.peak_of_prefix(n - 1, w);
            let k = n - 1;
            assert(0 <= k / c < self.rows() && 0 <= k % c < c) by (nonlinear_arith)
                requires
                    0 <= k < self.rows() * c,
                    c > 0,
            ;
            assert(self.map@[k / c]@.len() == c);
            let here = self.map@[k / c]@[k % c] as int;
            let w = if here > before {
                here
            } else {
                before
            };
            assert(self.peak_of_prefix(n, w));
        }
        if n == self.rows() * self.cols() {
            let w = choose|w: int| #[trigger] self.peak_of_prefix(n, w);
            assert forall|i: int, j: int|
                0 <= i < self.rows() && 0 <= j < self.map@[i]@.len() implies (
            #[trigger] self.map@[i]@[j]) <= w by {
                assert(self.map@[i]@.len() == c);
                let k = i * c + j;
                assert(0 <= k < self.rows() * c && k / c == i && k % c == j) by (nonlinear_arith)
                    requires
                        k == i * c + j,
                        0 <= j < c,
                        0 <= i < self.rows(),
                ;
            }
            let k = choose|k: int|
                0 <= k < n && (#[trigger] self.map@[k / self.cols()])@[k % self.cols()] == w;
            assert(0 <= k / c < self.rows() && 0 <= k % c < c) by (nonlinear_arith)
                requires
                    0 <= k < self.rows() * c,
                    c > 0,
            ;
            assert(self.map@[k / c]@.len() == c);
            assert(self.map@[k / c]@[k % c] == w);
            assert(self.is_peak(w));
            self.lemma_peak_is(w);
        }
    }

    /// `w` is the largest weight among the first `n` cells in row-major order.
    pub open spec fn peak_of_prefix(&self, n: int, w: int) -> bool {
        &&& forall|k: int|
            0 <= k < n ==> (#[trigger] self.map@[k / self.cols()])@[k % self.cols()] <= w
        &&& exists|k: int|
            0 <= k < n && (#[trigger] self.map@[k / self.cols()])@[k % self.cols()] == w
    }
}

impl RiskMap {
    /// No cell has a neighbour within zero pixels.
    pub proof fn lemma_no_neighbours_within_zero(&self, p: Coord<i16>)
        requires
            self.rectangular(),
            self.margin_ok(),
        ensures
            self.neighbours(p, 0).len() == 0,
    {
        let s = self.surroundings(p, 0);
        if s.len() > 0 {
            let x = p.x as int;
            let y = p.y as int;
            assert(s == block_cells(x, x, y, y));
            assert(block_cells(x, x, y + 1, y) =~= Seq::empty());
            assert(s =~= seq![p]);
            assert(without(s.drop_first(), p) =~= Seq::empty());
        }
    }

    /// A neighbour of `p` is a valid cell other than `p`, at most `limit`
    /// pixels from it along each axis.
    pub proof fn lemma_neighbour(&self, p: Coord<i16>, limit: i16, i: int)
        requires
            self.rectangular(),
            self.margin_ok(),
            0 <= i < self.neighbours(p, limit).len(),
        ensures
            self.neighbours(p, limit)[i] != p,
            self.in_domain(self.neighbours(p, limit)[i]),
            p.x - limit <= self.neighbours(p, limit)[i].x <= p.x + limit,
            p.y - limit <= self.neighbours(p, limit)[i].y <= p.y + limit,
    {
        let s = self.surroundings(p, limit);
        lemma_without(s, p, i);
        let q = self.neighbours(p, limit)[i];
        let j = choose|j: int| 0 <= j < s.len() && s[j] == q;
        let x0 = int_max(self.offset as int, p.x - limit);
        let x1 = int_min(self.cols() - self.offset - 1, p.x + limit);
        let y0 = int_max(self.offset as int, p.y - limit);
        let y1 = int_min(self.rows() - self.offset - 1, p.y + limit);
        lemma_block_bounds(x0, x1, y0, y1, j);
    }

    /// Every valid cell other than `p`, at most `limit` pixels from it along
    /// each axis, is a neighbour of `p`.
    pub proof fn lemma_is_neighbour(&self, p: Coord<i16>, limit: i16, q: Coord<i16>)
        requires
            self.rectangular(),
            self.margin_ok(),
            self.in_domain(q),
            q != p,
            p.x - limit <= q.x <= p.x + limit,
            p.y - limit <= q.y <= p.y + limit,
        ensures
            self.neighbours(p, limit).contains(q),
    {
        let x0 = int_max(self.offset as int, p.x - limit);
        let x1 = int_min(self.cols() - self.offset - 1, p.x + limit);
        let y0 = int_max(self.offset as int, p.y - limit);
        let y1 = int_min(self.rows() - self.offset - 1, p.y + limit);
        lemma_block_contains(x0, x1, y0, y1, q);
        lemma_without_keeps(self.surroundings(p, limit), p, q);
    }

    /// The valid cells number `height * width`, and the one at position `i`
    /// lies in row `i / width` and column `i % width` of the valid domain.
    pub proof fn lemma_all_points(&self, i: int)
        requires
            self.rectangular(),
            self.margin_ok(),
            0 <= i < self.spec_height() * self.spec_width(),
        ensures
            self.all_points().len() == self.spec_height() * self.spec_width(),
            self.all_points()[i] == (Coord {
                x: (self.offset + i % self.spec_width()) as i16,
                y: (self.offset + i / self.spec_width()) as i16,
            }),
            self.in_domain(self.all_points()[i]),
    {
        let x0 = self.offset as int;
        let x1 = self.cols() - self.offset - 1;
        let y0 = self.offset as int;
        let y1 = self.rows() - self.offset - 1;
        assert((x1 - x0 + 1) * (y1 - y0 + 1) == self.spec_height() * self.spec_width())
            by (nonlinear_arith)
            requires
                x1 - x0 + 1 == self.spec_width(),
                y1 - y0 + 1 == self.spec_height(),
        ;
        lemma_block_len(x0, x1, y0, y1);
        lemma_block_index(x0, x1, y0, y1, i);
        lemma_block_bounds(x0, x1, y0, y1, i);
    }

    /// Number of valid cells.
    pub open spec fn node_count(&self) -> int {
        self.spec_width() * self.spec_height()
    }

    /// The position of a valid cell among all valid cells in row-major order.
    pub open spec fn code(&self, c: Coord<i16>) -> int {
        (c.y - self.offset) * self.spec_width() + (c.x - self.offset)
    }

    /// The valid cell at a position in row-major order.
    pub open spec fn decode(&self, k: int) -> Coord<i16> {
        Coord {
            x: (self.offset + k % self.spec_width()) as i16,
            y: (self.offset + k / self.spec_width()) as i16,
        }
    }

    /// A valid cell has a position below the number of valid cells, which
    /// leads back to the cell.
    pub proof fn lemma_code(&self, c: Coord<i16>)
        requires
            self.rectangular(),
            self.margin_ok(),
            self.in_domain(c),
        ensures
            0 <= self.code(c) < self.node_count(),
            self.decode(self.code(c)) == c,
            self.node_count() <= 32767 * 32767,
    {
        let w = self.spec_width();
        let h = self.spec_height();
        let r = c.y - self.offset;
        let q = c.x - self.offset;
        assert(0 <= r * w + q < w * h && (r * w + q) / w == r && (r * w + q) % w == q)
            by (nonlinear_arith)
            requires
                0 <= r < h,
                0 <= q < w,
        ;
        assert(w * h <= 32767 * 32767) by (nonlinear_arith)
            requires
                0 <= w <= 32767,
                0 <= h <= 32767,
        ;
    }

    /// The position of a valid cell, computed.
    pub fn encode(&self, c: Coord<i16>) -> (k: u64)
        requires
            self.rectangular(),
            self.margin_ok(),
            self.in_domain(c),
        ensures
            k == self.code(c),
    {
        proof {
            self.lemma_code(c);
        }
        let w: u64 = self.width() as u64;
        let r: u64 = (c.y as i32 - self.offset as i32) as u64;
        let q: u64 = (c.x as i32 - self.offset as i32) as u64;
        assert(r * w <= 32767 * 32767) by (nonlinear_arith)
            requires
                0 <= r <= 32767,
                0 <= w <= 32767,
        ;
        r * w + q
    }

    /// The valid cell at a position, computed.
    pub fn node_at(&self, k: u64) -> (c: Coord<i16>)
        requires
            self.rectangular(),
            self.margin_ok(),
            k < self.node_count(),
        ensures
            c == self.decode(k as int),
            self.in_domain(c),
            self.code(c) == k,
    {
        let w: u64 = self.width() as u64;
        let h: u64 = self.height() as u64;
        assert(0 <= (k as int) % (w as int) < w && 0 <= (k as int) / (w as int) < h && ((k as int)
            / (w as int)) * w + (k as int) % (w as int) == k) by (nonlinear_arith)
            requires
                0 <= k < w * h,
                w > 0,
        ;
        Coord {
            x: (self.offset as i32 + (k % w) as i32) as i16,
            y: (self.offset as i32 + (k / w) as i32) as i16,
        }
    }
}

impl RiskMap {
    /// Risk and length do not depend on the direction of an edge: the
    /// corridor from `p2` back to `p1` covers the cells of the corridor from
    /// `p1` to `p2`.
    pub proof fn lemma_edge_symmetric(&self, p1: Coord<i16>, p2: Coord<i16>, r_m: u64)
        ensures
            self.spec_risk(p2, p1, r_m) == self.spec_risk(p1, p2, r_m),
            self.spec_length(p2, p1) == self.spec_length(p1, p2),
    {
        let w = half_width_px(r_m, self.m_per_pixel);
        assert((p1.x - p2.x) * (p1.x - p2.x) == (p2.x - p1.x) * (p2.x - p1.x))
            by (nonlinear_arith);
        assert((p1.y - p2.y) * (p1.y - p2.y) == (p2.y - p1.y) * (p2.y - p1.y))
            by (nonlinear_arith);
        if p1 != p2 {
            lemma_corridor_opposite(p1, p2, w);
            corridor(p1, p2, w).lemma_sides_symmetric();
        }
    }
}

} // verus!
