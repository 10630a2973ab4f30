//! Which corridors a search can meet, and whether each can be rasterised.

use crate::bicriteria_dijkstra::BicriteriaDijkstraInstance;
use crate::coord::Coord;
use crate::raster::{classify_corners, lemma_classify_in_extent, ParallelogramPixels};
use crate::corridor::{
    corridor, half_width, half_width_px, lemma_corridor_moved, lemma_half_width_sign,
    MAX_HALF_WIDTH,
};
use crate::risks::{int_min, RiskMap};
use vstd::prelude::*;

verus! {

impl<'a> BicriteriaDijkstraInstance<'a> {
    /// The half-width of the corridor in whole pixels.
    pub open spec fn half_width(&self) -> int {
        half_width_px(self.r_m, self.risk_map.m_per_pixel)
    }

    /// How far an edge can reach along x: the search limit, or the width of
    /// the valid domain if that is less.
    pub open spec fn reach_x(&self) -> int {
        int_min(self.search_limit as int, self.risk_map.spec_width() - 1)
    }

    /// How far an edge can reach along y.
    pub open spec fn reach_y(&self) -> int {
        int_min(self.search_limit as int, self.risk_map.spec_height() - 1)
    }

    /// Some edge of the graph steps by `(dx, dy)`.
    pub open spec fn is_step(&self, dx: int, dy: int) -> bool {
        &&& -self.reach_x() <= dx <= self.reach_x()
        &&& -self.reach_y() <= dy <= self.reach_y()
        &&& dx != 0 || dy != 0
    }

    /// The corridor of a step by `(dx, dy)` is not too close to singular.
    #[verifier::opaque]
    pub open spec fn step_regular(&self, dx: int, dy: int) -> bool {
        !corridor(
            Coord { x: 0, y: 0 },
            Coord { x: dx as i16, y: dy as i16 },
            self.half_width(),
        ).quad().degenerate()
    }

    /// The corridor of every step that an edge can take can be rasterised.
    pub open spec fn steps_regular(&self) -> bool {
        forall|dx: int, dy: int| #[trigger]
            self.is_step(dx, dy) ==> self.half_width() <= MAX_HALF_WIDTH && self.step_regular(
                dx,
                dy,
            )
    }

    /// The corridor of an edge between two valid cells can be rasterised
    /// exactly when the corridor of the step between them can.
    proof fn lemma_edge_regular(&self, u: Coord<i16>, v: Coord<i16>)
        requires
            self.risk_map.in_domain(u),
            self.risk_map.in_domain(v),
            self.risk_map.wf(),
        ensures
            self.risk_map.spec_risk(u, v, self.r_m) is Ok <==> self.half_width() <= MAX_HALF_WIDTH
                && self.step_regular(v.x - u.x, v.y - u.y),
    {
        reveal(BicriteriaDijkstraInstance::step_regular);
        if self.half_width() <= MAX_HALF_WIDTH {
            lemma_half_width_sign(self.r_m, self.risk_map.m_per_pixel);
            lemma_corridor_moved(u, v, self.half_width());
        }
    }

    /// An edge of the graph steps by `(dx, dy)` where that is a step.
    proof fn lemma_step_taken(&self, dx: int, dy: int) -> (edge: (Coord<i16>, Coord<i16>))
        requires
            self.risk_map.rectangular(),
            self.risk_map.margin_ok(),
            self.is_step(dx, dy),
        ensures
            self.risk_map.in_domain(edge.0),
            self.risk_map.in_domain(edge.1),
            self.adjacent(edge.0, edge.1),
            edge.1.x - edge.0.x == dx,
            edge.1.y - edge.0.y == dy,
    {
        let off = self.risk_map.offset as int;
        let u = Coord {
            x: (if dx < 0 {
                off - dx
            } else {
                off
            }) as i16,
            y: (if dy < 0 {
                off - dy
            } else {
                off
            }) as i16,
        };
        let v = Coord { x: (u.x + dx) as i16, y: (u.y + dy) as i16 };
        self.lemma_adjacent(u, v);
        (u, v)
    }

    /// Every edge of the graph steps by a step.
    proof fn lemma_edge_steps(&self, u: Coord<i16>, v: Coord<i16>)
        requires
            self.risk_map.rectangular(),
            self.risk_map.margin_ok(),
            self.risk_map.in_domain(u),
            self.adjacent(u, v),
        ensures
            self.risk_map.in_domain(v),
            self.is_step(v.x - u.x, v.y - u.y),
    {
        self.lemma_adjacent(u, v);
    }

    /// The corridor of every edge can be rasterised exactly when the
    /// corridor of every step can: a corridor moved by whole pixels keeps
    /// its shape.
    pub proof fn lemma_regular_by_steps(&self)
        requires
            self.risk_map.wf(),
        ensures
            self.regular() == self.steps_regular(),
    {
        if self.steps_regular() {
            assert forall|u: Coord<i16>, v: Coord<i16>|
                self.risk_map.in_domain(u) && #[trigger] self.adjacent(
                    u,
                    v,
                ) implies self.risk_map.spec_risk(u, v, self.r_m) is Ok by {
                self.lemma_edge_steps(u, v);
                self.lemma_edge_regular(u, v);
            }
        }
        if self.regular() {
            assert forall|dx: int, dy: int| #[trigger] self.is_step(dx, dy) implies self.half_width()
                <= MAX_HALF_WIDTH && self.step_regular(dx, dy) by {
                let edge = self.lemma_step_taken(dx, dy);
                self.lemma_edge_regular(edge.0, edge.1);
            }
        }
    }

    /// Whether the corridor of a step is not too close to singular, computed.
    fn step_is_regular(&self, dx: i16, dy: i16) -> (ok: bool)
        requires
            self.wf(),
            self.half_width() <= MAX_HALF_WIDTH,
        ensures
            ok == self.step_regular(dx as int, dy as int),
    {
        reveal(BicriteriaDijkstraInstance::step_regular);
        let sides = match RiskMap::parallelogram_from_two_points(
            Coord { x: 0, y: 0 },
            Coord { x: dx, y: dy },
            self.r_m,
            self.risk_map.m_per_pixel,
        ) {
            Ok(sides) => sides,
            Err(_) => {
                return false;
            },
        };
        let shape = ParallelogramPixels::new(sides.0, sides.1);
        proof {
            lemma_classify_in_extent(
                shape.origin_side.0,
                shape.origin_side.1,
                shape.destination_side.0,
                shape.destination_side.1,
            );
        }
        let quad = classify_corners(
            shape.origin_side.0,
            shape.origin_side.1,
            shape.destination_side.0,
            shape.destination_side.1,
        );
        !quad.is_degenerate()
    }

    /// Whether the corridor of every edge can be rasterised, so that no
    /// search fails on the geometry of an edge.
    #[verifier::rlimit(40)]
    pub fn corridors_regular(&self) -> (ok: bool)
        requires
            self.wf(),
        ensures
            ok == self.regular(),
    {
        proof {
            self.lemma_regular_by_steps();
        }
        let map = self.risk_map;
        let limit: i32 = self.search_limit as i32;
        let width: i32 = self.risk_map.width() as i32;
        let height: i32 = self.risk_map.height() as i32;
        let rx: i32 = if limit <= width - 1 {
            limit
        } else {
            width - 1
        };
        let ry: i32 = if limit <= height - 1 {
            limit
        } else {
            height - 1
        };
        if rx < 0 || ry < 0 || (rx == 0 && ry == 0) {
            return true;
        }
        if half_width(self.r_m, self.risk_map.m_per_pixel) > MAX_HALF_WIDTH {
            assert(self.is_step(1, 0) || self.is_step(0, 1));
            return false;
        }
        let mut dy: i32 = -ry;
        while dy <= ry
            invariant
                self.wf(),
                self.half_width() <= MAX_HALF_WIDTH,
                self.regular() == self.steps_regular(),
                rx == self.reach_x(),
                ry == self.reach_y(),
                0 <= rx <= 32767,
                0 <= ry <= 32767,
                -ry <= dy <= ry + 1,
                forall|x: int, y: int|
                    -ry <= y < dy && #[trigger] self.is_step(x, y) ==> self.step_regular(x, y),
            decreases ry + 1 - dy,
        {
            let mut dx: i32 = -rx;
            while dx <= rx
                invariant
                    self.wf(),
                    self.half_width() <= MAX_HALF_WIDTH,
                    self.regular() == self.steps_regular(),
                    rx == self.reach_x(),
                    ry == self.reach_y(),
                    0 <= rx <= 32767,
                    0 <= ry <= 32767,
                    -ry <= dy <= ry,
                    -rx <= dx <= rx + 1,
                    forall|x: int, y: int|
                        -ry <= y < dy && #[trigger] self.is_step(x, y) ==> self.step_regular(x, y),
                    forall|x: int|
                        -rx <= x < dx && #[trigger] self.is_step(x, dy as int)
                            ==> self.step_regular(x, dy as int),
                decreases rx + 1 - dx,
            {
                if dx != 0 || dy != 0 {
                    if !self.step_is_regular(dx as i16, dy as i16) {
                        assert(self.is_step(dx as int, dy as int));
                        return false;
                    }
                }
                dx = dx + 1;
            }
            dy = dy + 1;
        }
        true
    }
}

} // verus!
