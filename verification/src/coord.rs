//! Two-dimensional coordinates.

use crate::fixed::{floor_div, MAX_EXTENT, SCALE, SNAP_TOLERANCE};
use vstd::prelude::*;

verus! {

/// A point with two components of one numeric type: `i16` for grid cells,
/// `i64` for sub-pixel positions.
#[derive(Clone, Copy, PartialEq, Eq, Debug, Hash)]
pub struct Coord<T> {
    pub x: T,
    pub y: T,
}

/// Whether a sub-pixel point lies within the extent that the rasteriser accepts.
pub open spec fn in_extent(p: Coord<i64>) -> bool {
    &&& -MAX_EXTENT <= p.x <= MAX_EXTENT
    &&& -MAX_EXTENT <= p.y <= MAX_EXTENT
}

/// A corner coordinate, moved onto the whole pixel next to it when it lies
/// within [`SNAP_TOLERANCE`] of one.
pub open spec fn snap(c: int) -> int {
    let m = c % (SCALE as int);
    if m < SNAP_TOLERANCE {
        c - m
    } else if SCALE - m < SNAP_TOLERANCE {
        c + (SCALE - m)
    } else {
        c
    }
}

/// A corner with both coordinates snapped.
pub open spec fn snapped(p: Coord<i64>) -> Coord<i64> {
    Coord { x: snap(p.x as int) as i64, y: snap(p.y as int) as i64 }
}

/// One coordinate snapped, computed.
fn snap_value(c: i64) -> (s: i64)
    requires
        -MAX_EXTENT <= c <= MAX_EXTENT,
    ensures
        s == snap(c as int),
        -MAX_EXTENT <= s <= MAX_EXTENT,
{
    let q: i128 = floor_div(c as i128, SCALE as i128);
    let m: i64 = (c as i128 - q * (SCALE as i128)) as i64;
    if m < SNAP_TOLERANCE {
        c - m
    } else if SCALE - m < SNAP_TOLERANCE {
        c + (SCALE - m)
    } else {
        c
    }
}

impl Coord<i64> {
    /// Snaps both coordinates onto the whole pixel next to them where they
    /// lie within [`SNAP_TOLERANCE`] of one.
    pub fn round_if_needed(&mut self)
        requires
            in_extent(*old(self)),
        ensures
            *final(self) == snapped(*old(self)),
            in_extent(*final(self)),
    {
        self.x = snap_value(self.x);
        self.y = snap_value(self.y);
    }
}

} // verus!
