use bresenham::Bresenham;
use vstd::prelude::*;

verus! {

/// The points that `Bresenham::new((x0, y0), (x1, y1))` yields, in order.
pub uninterp spec fn line_points(x0: isize, y0: isize, x1: isize, y1: isize) -> Seq<(isize, isize)>;

/// The larger of the two distances between the end points along an axis.
pub open spec fn line_span(x0: isize, y0: isize, x1: isize, y1: isize) -> int {
    let dx = if x1 >= x0 {
        x1 - x0
    } else {
        x0 - x1
    };
    let dy = if y1 >= y0 {
        y1 - y0
    } else {
        y0 - y1
    };
    if dx >= dy {
        dx
    } else {
        dy
    }
}

/// Traces the line from `start` towards `end` with `Bresenham`.
///
/// Believed of that iterator: it yields the same points for the same end
/// points, one for each step along the axis on which the end points lie
/// further apart.
#[verifier::external_body]
pub(crate) fn line(start: (isize, isize), end: (isize, isize)) -> (points: Vec<(isize, isize)>)
    requires
        -32768 <= start.0 <= 32767,
        -32768 <= start.1 <= 32767,
        -32768 <= end.0 <= 32767,
        -32768 <= end.1 <= 32767,
    ensures
        points@ == line_points(start.0, start.1, end.0, end.1),
        points@.len() == line_span(start.0, start.1, end.0, end.1),
{
    Bresenham::new(start, end).collect()
}

} // verus!
