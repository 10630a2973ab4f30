//! Aerial risk along a path: the risk of an independently supplied grid,
//! sampled on the straight lines between consecutive path cells.

use crate::bicriteria_dijkstra::Path;
use crate::coord::Coord;
use crate::risks::RiskMap;
use crate::trusted::line::{line, line_points, line_span};
use vstd::prelude::*;

verus! {

/// An aerial risk grid, `map[x][y]`, and the time span that its values cover.
pub struct AirRiskInstance {
    pub map: Vec<Vec<i32>>,
    pub total_time_s: i32,
}

/// The aerial risk summed over the sampled points of a path, and their number.
#[derive(Clone, Copy, PartialEq, Eq, Debug)]
pub struct AirRiskTally {
    pub risk: i128,
    pub samples: u128,
}

/// The points sampled along a path: the line from each cell towards the
/// next, in the order of the path.
pub open spec fn trace(path: Seq<Coord<i16>>) -> Seq<(isize, isize)>
    decreases path.len(),
{
    if path.len() <= 1 {
        Seq::empty()
    } else {
        trace(path.drop_last()) + line_points(
            path[path.len() - 2].x as isize,
            path[path.len() - 2].y as isize,
            path[path.len() - 1].x as isize,
            path[path.len() - 1].y as isize,
        )
    }
}

impl AirRiskInstance {
    /// An aerial risk grid with the time span, in seconds, that it covers.
    pub fn new(map: Vec<Vec<i32>>, total_time_s: i32) -> (instance: Self)
        ensures
            instance.map == map,
            instance.total_time_s == total_time_s,
    {
        Self { map, total_time_s }
    }

    /// The aerial grid has a row for each column of the risk map, and its
    /// first row a value for each row of the risk map.
    pub open spec fn matches(&self, map: &RiskMap) -> bool {
        &&& map.map@.len() >= 1
        &&& self.map@.len() == map.map@[0]@.len()
        &&& self.map@.len() >= 1
        &&& self.map@[0]@.len() == map.map@.len()
    }

    /// Whether the aerial grid and the risk map cover the same area, computed.
    pub fn fits(&self, map: &RiskMap) -> (ok: bool)
        ensures
            ok == self.matches(map),
    {
        map.map.len() >= 1 && self.map.len() == map.map[0].len() && self.map.len() >= 1
            && self.map[0].len() == map.map.len()
    }

    /// Whether a point lies on the grid.
    pub open spec fn covers(&self, p: (isize, isize)) -> bool {
        0 <= p.0 < self.map@.len() && 0 <= p.1 < self.map@[p.0 as int]@.len()
    }

    /// Whether every point lies on the grid.
    pub open spec fn covers_all(&self, points: Seq<(isize, isize)>) -> bool {
        forall|i: int| 0 <= i < points.len() ==> self.covers(#[trigger] points[i])
    }

    /// The summed risk at the points, each of which lies on the grid.
    pub open spec fn sum_of(&self, points: Seq<(isize, isize)>) -> int
        decreases points.len(),
    {
        if points.len() == 0 {
            0
        } else {
            self.sum_of(points.drop_last()) + self.map@[points.last().0 as int]@[points.last().1 as int]
        }
    }

    /// The risk summed over two runs of points is the sum over both.
    pub proof fn lemma_sum_of_concat(&self, a: Seq<(isize, isize)>, b: Seq<(isize, isize)>)
        ensures
            self.sum_of(a + b) == self.sum_of(a) + self.sum_of(b),
        decreases b.len(),
    {
        if b.len() == 0 {
            assert(a + b =~= a);
        } else {
            assert((a + b).drop_last() =~= a + b.drop_last());
            self.lemma_sum_of_concat(a, b.drop_last());
        }
    }

    /// The summed risk at the given points, or `None` if one of them lies
    /// off the grid.
    pub fn sum_along(&self, points: &Vec<(isize, isize)>) -> (sum: Option<i128>)
        ensures
            sum is Some <==> self.covers_all(points@),
            sum matches Some(s) ==> s == self.sum_of(points@) && -0x8000_0000 * points@.len() <= s
                <= 0x8000_0000 * points@.len(),
    {
        let mut sum: i128 = 0;
        let mut i: usize = 0;
        while i < points.len()
            invariant
                i <= points@.len(),
                self.covers_all(points@.take(i as int)),
                sum == self.sum_of(points@.take(i as int)),
                -0x8000_0000 * i <= sum <= 0x8000_0000 * i,
            decreases points@.len() - i,
        {
            let p = points[i];
            if p.0 < 0 || p.1 < 0 || p.0 as usize >= self.map.len() {
                assert(!self.covers(points@[i as int]));
                return None;
            }
            if p.1 as usize >= self.map[p.0 as usize].len() {
                assert(!self.covers(points@[i as int]));
                return None;
            }
            assert(points@.take(i + 1).drop_last() =~= points@.take(i as int));
            assert forall|k: int| 0 <= k < i + 1 implies self.covers(
                #[trigger] points@.take(i + 1)[k],
            ) by {
                if k < i {
                    assert(points@.take(i as int)[k] == points@[k]);
                }
            }
            sum = sum + self.map[p.0 as usize][p.1 as usize] as i128;
            i = i + 1;
        }
        assert(points@.take(i as int) =~= points@);
        Some(sum)
    }

    /// The aerial risk summed over the points sampled along a path, with
    /// their number, or `None` if one of them lies off the grid.
    pub fn compute_air_risk(&self, path: &Path) -> (tally: Option<AirRiskTally>)
        ensures
            tally is Some <==> self.covers_all(trace(path.path@)),
            tally matches Some(t) ==> t.risk == self.sum_of(trace(path.path@)) && t.samples == trace(
                path.path@,
            ).len(),
    {
        let n: usize = path.path.len();
        let mut risk: i128 = 0;
        let mut samples: u128 = 0;
        if n == 0 {
            return Some(AirRiskTally { risk, samples });
        }
        let mut i: usize = 1;
        proof {
            assert(path.path@.take(1).len() == 1);
        }
        while i < n
            invariant
                n == path.path@.len(),
                1 <= i <= n,
                self.covers_all(trace(path.path@.take(i as int))),
                risk == self.sum_of(trace(path.path@.take(i as int))),
                samples == trace(path.path@.take(i as int)).len(),
                samples <= 65535 * i,
                -140735340871680 * i <= risk <= 140735340871680 * i,
            decreases n - i,
        {
            let s = path.path[i - 1];
            let e = path.path[i];
            let points = line((s.x as isize, s.y as isize), (e.x as isize, e.y as isize));
            let ghost before = trace(path.path@.take(i as int));
            let ghost after = trace(path.path@.take(i + 1));
            proof {
                let grown = path.path@.take(i + 1);
                assert(grown.drop_last() =~= path.path@.take(i as int));
                assert(after == before + points@);
                self.lemma_sum_of_concat(before, points@);
                assert(line_span(s.x as isize, s.y as isize, e.x as isize, e.y as isize) <= 65535);
            }
            match self.sum_along(&points) {
                Some(sum) => {
                    risk = risk + sum;
                    samples = samples + points.len() as u128;
                    proof {
                        assert forall|k: int| 0 <= k < after.len() implies self.covers(
                            #[trigger] after[k],
                        ) by {
                            if k < before.len() {
                                assert(after[k] == before[k]);
                            } else {
                                assert(after[k] == points@[k - before.len()]);
                            }
                        }
                    }
                },
                None => {
                    proof {
                        let k = choose|k: int| 0 <= k < points@.len() && !self.covers(points@[k]);
                        assert(after[before.len() + k] == points@[k]);
                        self.lemma_uncovered_stays(path.path@, i + 1, before.len() + k);
                    }
                    return None;
                },
            }
            i = i + 1;
        }
        proof {
            assert(path.path@.take(i as int) =~= path.path@);
        }
        Some(AirRiskTally { risk, samples })
    }

    /// A point off the grid among those sampled along the start of a path is
    /// among those sampled along the whole path.
    proof fn lemma_uncovered_stays(&self, path: Seq<Coord<i16>>, upto: int, k: int)
        requires
            1 <= upto <= path.len(),
            0 <= k < trace(path.take(upto)).len(),
            !self.covers(trace(path.take(upto))[k]),
        ensures
            !self.covers_all(trace(path)),
        decreases path.len() - upto,
    {
        if upto == path.len() {
            assert(path.take(upto) =~= path);
        } else {
            let grown = path.take(upto + 1);
            assert(grown.drop_last() =~= path.take(upto));
            assert(trace(grown)[k] == trace(path.take(upto))[k]);
            self.lemma_uncovered_stays(path, upto + 1, k);
        }
    }
}

} // verus!
