//! The approximate Pareto frontier of risk against length, refined by
//! bisection in the weight between neighbouring paths.

use crate::bicriteria_dijkstra::{BicriteriaDijkstraInstance, Path, SearchError, Weight};
use crate::coord::Coord;
use crate::risks::MAX_LENGTH;
use crate::trusted::queue::{queue_entries, queue_new, queue_pop, queue_push};
use vstd::prelude::*;

verus! {

/// The weight of the risk-averse end of the frontier: a unit of risk counts
/// as much as a hundred kilometres.
pub const RISK_AVERSE: u128 = 1_000_000_000_000;

/// Two neighbours of the frontier are refined when the risk between them
/// drops, per unit of length, by more than one part in this.
pub const STEEPNESS: u128 = 100_000_000_000_000;

/// Whether the step from `p` to `q` is steep enough to be refined.
pub open spec fn steep(p: Path, q: Path) -> bool {
    (p.risk - q.risk) * STEEPNESS > q.length_m - p.length_m
}

/// The weight under which `p` and `q` cost the same: the length that `q` has
/// more for each unit of risk that it has less.
pub open spec fn slope(p: Path, q: Path) -> Weight {
    Weight { num: (q.length_m - p.length_m) as u128, den: (p.risk - q.risk) as u128 }
}

/// Whether risk and length `(risk, length)` lie strictly between the
/// neighbours `p` and `q`: less risk than `p`, less length than `q`.
pub open spec fn improves(risk: int, length: int, p: Path, q: Path) -> bool {
    risk < p.risk && length < q.length_m
}

impl<'a> BicriteriaDijkstraInstance<'a> {
    /// `path` is a cheapest path under its own weight, rightly recorded.
    #[verifier::opaque]
    pub open spec fn is_best(&self, path: Path) -> bool {
        &&& path.alpha.wf()
        &&& self.path_ok(path.alpha, path)
        &&& self.is_best_route(path.alpha, path.path@)
    }

    /// Nothing is left to refine between the neighbours `p` and `q`: the
    /// step is not steep, or a cheapest path under the weight between them
    /// does not lie strictly between them.
    pub open spec fn converged(&self, p: Path, q: Path) -> bool {
        !steep(p, q) || exists|t: Seq<Coord<i16>>| #[trigger]
            self.is_best_route(slope(p, q), t) && !improves(
                self.trail_risk(t),
                self.trail_length(t),
                p,
                q,
            )
    }

    /// The neighbours at the positions `i` and `i + 1` are in order: risk
    /// does not rise and length does not fall. Once the frontier holds more
    /// than its two ends, risk falls at every step, and length rises at
    /// every step but the first.
    pub open spec fn pair_ok(&self, paths: Seq<Path>, i: int) -> bool {
        &&& paths[i].risk >= paths[i + 1].risk
        &&& paths[i].length_m <= paths[i + 1].length_m
        &&& paths.len() > 2 ==> paths[i].risk > paths[i + 1].risk
        &&& paths.len() > 2 && i >= 1 ==> paths[i].length_m < paths[i + 1].length_m
    }

    /// `paths` is a frontier: it runs from a shortest path to a cheapest path
    /// under the risk-averse weight, every path is a cheapest one under its
    /// own weight, and neighbours are in order.
    pub open spec fn frontier_ok(&self, paths: Seq<Path>) -> bool {
        &&& paths.len() >= 2
        &&& forall|i: int| 0 <= i < paths.len() ==> self.is_best(#[trigger] paths[i])
        &&& paths[0].alpha == (Weight { num: 0, den: 1 })
        &&& paths.last().alpha == (Weight { num: RISK_AVERSE, den: 1 })
        &&& forall|i: int| 1 <= i < paths.len() ==> (#[trigger] paths[i]).alpha.num >= 1
        &&& forall|i: int| 0 <= i < paths.len() - 1 ==> #[trigger] self.pair_ok(paths, i)
    }

    /// Nothing is left to refine anywhere on the frontier.
    pub open spec fn frontier_converged(&self, paths: Seq<Path>) -> bool {
        forall|i: int|
            0 <= i < paths.len() - 1 ==> self.converged(#[trigger] paths[i], paths[i + 1])
    }

    /// The step behind the position `i` of the frontier `paths` is steep, and
    /// under the weight between its two paths a path may cost more than the
    /// label range holds.
    pub open spec fn overflows_at(&self, paths: Seq<Path>, i: int) -> bool {
        &&& self.frontier_ok(paths)
        &&& 0 <= i < paths.len() - 1
        &&& steep(paths[i], paths[i + 1])
        &&& self.label_bound(slope(paths[i], paths[i + 1])) > i128::MAX
    }

    /// The most that one path of a frontier can be longer than another: what
    /// a path can cost at most under the risk-averse weight.
    pub open spec fn rise_cap(&self) -> int {
        self.label_bound(Weight { num: RISK_AVERSE, den: 1 })
    }

    /// The most that one path of a frontier can carry more risk than
    /// another: the most risk of an edge, for each valid cell.
    pub open spec fn drop_cap(&self) -> int {
        self.risk_map.node_count() * self.risk_cap()
    }

    /// The most that a path can cost under any weight between two paths of a
    /// frontier.
    pub open spec fn refinement_bound(&self) -> int {
        self.risk_map.node_count() * (self.rise_cap() * self.risk_cap() + self.drop_cap()
            * MAX_LENGTH)
    }

    /// Every search that the refinement of a frontier can ask for stays
    /// within the label range, and the frontier within what can be counted.
    pub open spec fn refinement_fits(&self) -> bool {
        &&& self.rise_cap() <= i128::MAX
        &&& self.refinement_bound() <= i128::MAX
        &&& self.drop_cap() + 2 < usize::MAX
    }

    /// A shortest path is searched within the label range wherever a safest
    /// path is.
    pub proof fn lemma_seed_fits(&self)
        requires
            self.risk_map.wf(),
        ensures
            self.label_bound(Weight { num: 0, den: 1 }) <= self.rise_cap(),
            self.risk_cap() >= 0,
            self.risk_map.node_count() >= 1,
    {
        self.lemma_edge_bounds(self.from, self.from);
        let rc = self.risk_cap();
        let n = self.risk_map.node_count();
        assert(n >= 1) by (nonlinear_arith)
            requires
                n == self.risk_map.spec_width() * self.risk_map.spec_height(),
                self.risk_map.spec_width() >= 1,
                self.risk_map.spec_height() >= 1,
        ;
        assert(n * (0 * rc + 1 * MAX_LENGTH) <= n * (RISK_AVERSE * rc + 1 * MAX_LENGTH))
            by (nonlinear_arith)
            requires
                n >= 0,
                rc >= 0,
        ;
    }

    /// No path of a frontier carries more risk than the first, nor is any
    /// longer than the last.
    pub proof fn lemma_frontier_spread(&self, paths: Seq<Path>, i: int)
        requires
            self.frontier_ok(paths),
            0 <= i < paths.len(),
        ensures
            paths[i].risk <= paths[0].risk,
            paths[i].length_m <= paths.last().length_m,
    {
        self.lemma_risk_below_first(paths, i);
        self.lemma_length_below_last(paths, i);
    }

    /// No path of a frontier carries more risk than the first.
    proof fn lemma_risk_below_first(&self, paths: Seq<Path>, i: int)
        requires
            self.frontier_ok(paths),
            0 <= i < paths.len(),
        ensures
            paths[i].risk <= paths[0].risk,
        decreases i,
    {
        if i > 0 {
            self.lemma_risk_below_first(paths, i - 1);
            assert(self.pair_ok(paths, i - 1));
        }
    }

    /// No path of a frontier is longer than the last.
    proof fn lemma_length_below_last(&self, paths: Seq<Path>, i: int)
        requires
            self.frontier_ok(paths),
            0 <= i < paths.len(),
        ensures
            paths[i].length_m <= paths.last().length_m,
        decreases paths.len() - i,
    {
        if i < paths.len() - 1 {
            self.lemma_length_below_last(paths, i + 1);
            assert(self.pair_ok(paths, i));
        }
    }

    /// Where the refinement fits, the search under the weight between two
    /// neighbours of a frontier stays within the label range.
    pub proof fn lemma_slope_fits(&self, paths: Seq<Path>, i: int)
        requires
            self.risk_map.wf(),
            self.frontier_ok(paths),
            0 <= i < paths.len() - 1,
            self.refinement_fits(),
            paths[0].risk <= self.drop_cap(),
            paths.last().length_m <= self.rise_cap(),
        ensures
            self.label_bound(slope(paths[i], paths[i + 1])) <= i128::MAX,
            !self.overflows_at(paths, i),
    {
        self.lemma_seed_fits();
        self.lemma_frontier_spread(paths, i);
        self.lemma_frontier_spread(paths, i + 1);
        assert(self.pair_ok(paths, i));
        let w = slope(paths[i], paths[i + 1]);
        let num = w.num as int;
        let den = w.den as int;
        let rc = self.risk_cap();
        let n = self.risk_map.node_count();
        let rise = self.rise_cap();
        let drop = self.drop_cap();
        assert(0 <= num <= rise);
        assert(0 <= den <= drop);
        assert(n * (num * rc + den * MAX_LENGTH) <= n * (rise * rc + drop * MAX_LENGTH))
            by (nonlinear_arith)
            requires
                n >= 0,
                rc >= 0,
                0 <= num <= rise,
                0 <= den <= drop,
        ;
    }

    /// A cheapest path is no longer than it costs; one that holds no more
    /// cells than the map has valid ones, with no edge above the risk cap,
    /// carries no more risk than the cap for each valid cell.
    proof fn lemma_path_within_caps(&self, path: Path)
        requires
            self.risk_map.wf(),
            self.is_best(path),
            path.path@.len() <= self.risk_map.node_count(),
            path.risk <= (path.path@.len() - 1) * self.risk_cap(),
        ensures
            path.length_m <= path.linear_combination_weight,
            path.risk <= self.drop_cap(),
    {
        reveal(BicriteriaDijkstraInstance::is_best);
        self.lemma_seed_fits();
        let rc = self.risk_cap();
        let n = self.risk_map.node_count();
        let len = path.path@.len() as int;
        assert((len - 1) * rc <= n * rc) by (nonlinear_arith)
            requires
                len <= n,
                rc >= 0,
        ;
        let num = path.alpha.num as int;
        let den = path.alpha.den as int;
        let r = path.risk as int;
        let l = path.length_m as int;
        assert(l <= num * r + den * l) by (nonlinear_arith)
            requires
                num >= 0,
                r >= 0,
                den >= 1,
                l >= 0,
        ;
    }

    /// Of two cheapest paths, the one found under the smaller weight of risk
    /// is no longer, and the one found under a positive weight has no more
    /// risk than any path that is no longer.
    pub proof fn lemma_seeds_in_order(&self, short: Path, safe: Path)
        requires
            self.is_best(short),
            self.is_best(safe),
            short.alpha.num == 0,
            safe.alpha.num >= 1,
        ensures
            short.length_m <= safe.length_m,
            short.risk >= safe.risk,
    {
        reveal(BicriteriaDijkstraInstance::is_best);
        let d0 = short.alpha.den as int;
        let l0 = short.length_m as int;
        let l1 = safe.length_m as int;
        let r0 = short.risk as int;
        let r1 = safe.risk as int;
        let n1 = safe.alpha.num as int;
        let d1 = safe.alpha.den as int;
        assert(self.is_route(safe.path@));
        assert(self.is_route(short.path@));
        assert(self.trail_cost(short.alpha, short.path@) <= self.trail_cost(
            short.alpha,
            safe.path@,
        ));
        assert(self.trail_cost(safe.alpha, safe.path@) <= self.trail_cost(safe.alpha, short.path@));
        assert(l0 <= l1) by (nonlinear_arith)
            requires
                0 * r0 + d0 * l0 <= 0 * r1 + d0 * l1,
                d0 >= 1,
        ;
        assert(r1 <= r0) by (nonlinear_arith)
            requires
                n1 * r1 + d1 * l1 <= n1 * r0 + d1 * l0,
                l0 <= l1,
                n1 >= 1,
                d1 >= 1,
        ;
    }

    /// A cheapest path `p` is no longer than a path with less risk, and
    /// shorter if it was found under a positive weight of risk.
    pub proof fn lemma_left_pair(&self, p: Path, risk: int, length: int, t: Seq<Coord<i16>>)
        requires
            self.is_best(p),
            self.is_route(t),
            risk == self.trail_risk(t),
            length == self.trail_length(t),
            risk < p.risk,
        ensures
            p.length_m <= length,
            p.alpha.num >= 1 ==> p.length_m < length,
    {
        reveal(BicriteriaDijkstraInstance::is_best);
        let n = p.alpha.num as int;
        let d = p.alpha.den as int;
        let r0 = p.risk as int;
        let l0 = p.length_m as int;
        assert(self.trail_cost(p.alpha, p.path@) <= self.trail_cost(p.alpha, t));
        assert(l0 <= length && (n >= 1 ==> l0 < length)) by (nonlinear_arith)
            requires
                n * r0 + d * l0 <= n * risk + d * length,
                risk < r0,
                n >= 0,
                d >= 1,
        ;
    }

    /// A cheapest path `q` under a positive weight of risk has less risk than
    /// a shorter path.
    pub proof fn lemma_right_pair(&self, q: Path, risk: int, length: int, t: Seq<Coord<i16>>)
        requires
            self.is_best(q),
            q.alpha.num >= 1,
            self.is_route(t),
            risk == self.trail_risk(t),
            length == self.trail_length(t),
            length < q.length_m,
        ensures
            q.risk < risk,
    {
        reveal(BicriteriaDijkstraInstance::is_best);
        let n = q.alpha.num as int;
        let d = q.alpha.den as int;
        let r1 = q.risk as int;
        let l1 = q.length_m as int;
        assert(self.trail_cost(q.alpha, q.path@) <= self.trail_cost(q.alpha, t));
        assert(r1 < risk) by (nonlinear_arith)
            requires
                n * r1 + d * l1 <= n * risk + d * length,
                length < l1,
                n >= 1,
                d >= 1,
        ;
    }

    /// On a frontier of more than two paths, the risk falls by at least one
    /// from each path to the next.
    pub proof fn lemma_risk_falls(&self, paths: Seq<Path>, j: int)
        requires
            self.frontier_ok(paths),
            paths.len() > 2,
            0 <= j < paths.len(),
        ensures
            paths[0].risk - paths[j].risk >= j,
        decreases j,
    {
        if j > 0 {
            self.lemma_risk_falls(paths, j - 1);
            assert(self.pair_ok(paths, j - 1));
        }
    }

    /// A cheapest path under the weight between two steep neighbours, lying
    /// strictly between them, can take its place between them: the frontier
    /// stays a frontier.
    pub proof fn lemma_frontier_insert(&self, paths: Seq<Path>, i: int, found: Path)
        requires
            self.frontier_ok(paths),
            0 <= i < paths.len() - 1,
            steep(paths[i], paths[i + 1]),
            self.is_best(found),
            found.alpha == slope(paths[i], paths[i + 1]),
            improves(found.risk as int, found.length_m as int, paths[i], paths[i + 1]),
        ensures
            self.frontier_ok(paths.insert(i + 1, found)),
            paths.insert(i + 1, found)[0] == paths[0],
            paths.insert(i + 1, found).last() == paths.last(),
    {
        reveal(BicriteriaDijkstraInstance::is_best);
        let p = paths[i];
        let q = paths[i + 1];
        let grown = paths.insert(i + 1, found);
        let t = found.path@;
        assert(self.pair_ok(paths, i));
        assert(self.is_best(p));
        assert(self.is_best(q));
        assert(q.alpha.num >= 1);
        self.lemma_left_pair(p, found.risk as int, found.length_m as int, t);
        self.lemma_right_pair(q, found.risk as int, found.length_m as int, t);
        // the new path was found under a positive weight of risk
        assert(found.alpha.num >= 1) by {
            if q.length_m == p.length_m {
                if i >= 1 {
                    assert(paths.len() > 2);
                }
            }
        }
        assert forall|j: int| 0 <= j < grown.len() implies self.is_best(#[trigger] grown[j]) by {
            if j <= i {
                assert(grown[j] == paths[j]);
            } else if j == i + 1 {
            } else {
                assert(grown[j] == paths[j - 1]);
            }
        }
        assert forall|j: int| 1 <= j < grown.len() implies (#[trigger] grown[j]).alpha.num >= 1 by {
            if j <= i {
                assert(grown[j] == paths[j]);
            } else if j == i + 1 {
            } else {
                assert(grown[j] == paths[j - 1]);
            }
        }
        assert forall|j: int| 0 <= j < grown.len() - 1 implies #[trigger] self.pair_ok(grown, j) by {
            if j < i {
                assert(self.pair_ok(paths, j));
                assert(grown[j] == paths[j] && grown[j + 1] == paths[j + 1]);
            } else if j == i {
                assert(grown[j] == p && grown[j + 1] == found);
            } else if j == i + 1 {
                assert(grown[j] == found && grown[j + 1] == q);
            } else {
                assert(self.pair_ok(paths, j - 1));
                assert(grown[j] == paths[j - 1] && grown[j + 1] == paths[j]);
            }
        }
    }
}

impl<'a> BicriteriaDijkstraInstance<'a> {
    /// The step behind the position `j` is queued for refinement under the
    /// identifier of the path at `j`, or nothing is left to refine there.
    pub open spec fn step_ok(
        &self,
        paths: Seq<Path>,
        ids: Seq<u64>,
        queue: Map<u64, i128>,
        j: int,
    ) -> bool {
        queue.contains_key(ids[j]) || self.converged(paths[j], paths[j + 1])
    }

    /// What holds of the refinement between two steps: every path has an
    /// identifier of its own, the queue holds identifiers of paths other than
    /// the last, and every step is queued or has nothing left to refine.
    #[verifier::opaque]
    pub open spec fn refinement_ok(
        &self,
        paths: Seq<Path>,
        ids: Seq<u64>,
        queue: Map<u64, i128>,
    ) -> bool {
        &&& self.frontier_ok(paths)
        &&& ids.len() == paths.len()
        &&& forall|j: int| 0 <= j < ids.len() ==> (#[trigger] ids[j]) < ids.len()
        &&& forall|j: int, k: int| 0 <= j < k < ids.len() ==> #[trigger] ids[j] != #[trigger] ids[k]
        &&& forall|key: u64| #[trigger]
            queue.contains_key(key) ==> exists|j: int|
                0 <= j < ids.len() - 1 && #[trigger] ids[j] == key
        &&& forall|j: int| 0 <= j < paths.len() - 1 ==> #[trigger] self.step_ok(paths, ids, queue, j)
        &&& queue.dom().finite()
    }

    /// Once the queue has run empty, nothing is left to refine.
    proof fn lemma_refinement_done(&self, paths: Seq<Path>, ids: Seq<u64>, queue: Map<u64, i128>)
        requires
            self.refinement_ok(paths, ids, queue),
            queue.dom() == Set::<u64>::empty(),
        ensures
            self.frontier_converged(paths),
            self.frontier_ok(paths),
    {
        reveal(BicriteriaDijkstraInstance::refinement_ok);
        assert forall|i: int| 0 <= i < paths.len() - 1 implies self.converged(
            #[trigger] paths[i],
            paths[i + 1],
        ) by {
            assert(self.step_ok(paths, ids, queue, i));
            assert(!queue.dom().contains(ids[i]));
        }
    }

    /// A step that was taken from the queue and found to have nothing left
    /// to refine leaves the refinement in order.
    proof fn lemma_refinement_settle(
        &self,
        paths: Seq<Path>,
        ids: Seq<u64>,
        queue: Map<u64, i128>,
        i: int,
    )
        requires
            self.refinement_ok(paths, ids, queue),
            0 <= i < paths.len() - 1,
            queue.contains_key(ids[i]),
            self.converged(paths[i], paths[i + 1]),
        ensures
            self.refinement_ok(paths, ids, queue.remove(ids[i])),
            queue.remove(ids[i]).dom().len() < queue.dom().len(),
    {
        reveal(BicriteriaDijkstraInstance::refinement_ok);
        let rest = queue.remove(ids[i]);
        assert(rest.dom() =~= queue.dom().remove(ids[i]));
        assert forall|j: int| 0 <= j < paths.len() - 1 implies #[trigger] self.step_ok(
            paths,
            ids,
            rest,
            j,
        ) by {
            assert(self.step_ok(paths, ids, queue, j));
        }
        assert forall|key: u64| #[trigger] rest.contains_key(key) implies exists|j: int|
            0 <= j < ids.len() - 1 && #[trigger] ids[j] == key by {
            assert(queue.contains_key(key));
        }
    }

    /// A path that takes its place behind the position `i`, with a new
    /// identifier and both steps beside it queued, leaves the refinement in
    /// order.
    #[verifier::rlimit(40)]
    proof fn lemma_refinement_insert(
        &self,
        paths: Seq<Path>,
        ids: Seq<u64>,
        queue: Map<u64, i128>,
        i: int,
        found: Path,
        first: i128,
        second: i128,
    )
        requires
            self.refinement_ok(paths, ids, queue),
            0 <= i < paths.len() - 1,
            queue.contains_key(ids[i]),
            steep(paths[i], paths[i + 1]),
            self.is_best(found),
            found.alpha == slope(paths[i], paths[i + 1]),
            improves(found.risk as int, found.length_m as int, paths[i], paths[i + 1]),
            paths.len() < u64::MAX,
        ensures
            self.refinement_ok(
                paths.insert(i + 1, found),
                ids.insert(i + 1, paths.len() as u64),
                queue.remove(ids[i]).insert(paths.len() as u64, first).insert(ids[i], second),
            ),
            paths.insert(i + 1, found)[0] == paths[0],
            paths.insert(i + 1, found).last() == paths.last(),
            paths.insert(i + 1, found).len() > 2,
            paths[0].risk - paths.last().risk >= paths.len(),
    {
        reveal(BicriteriaDijkstraInstance::refinement_ok);
        let fresh = paths.len() as u64;
        let grown = paths.insert(i + 1, found);
        let named = ids.insert(i + 1, fresh);
        let rest = queue.remove(ids[i]);
        let queued = rest.insert(fresh, first).insert(ids[i], second);
        self.lemma_frontier_insert(paths, i, found);
        self.lemma_risk_falls(grown, paths.len() as int);
        assert(rest.dom() =~= queue.dom().remove(ids[i]));
        assert(queued.dom() =~= rest.dom().insert(fresh).insert(ids[i]));
        assert forall|j: int| 0 <= j < named.len() implies (#[trigger] named[j]) < named.len() by {
            if j <= i {
                assert(named[j] == ids[j]);
            } else if j == i + 1 {
            } else {
                assert(named[j] == ids[j - 1]);
            }
        }
        assert forall|j: int, k: int| 0 <= j < k < named.len() implies #[trigger] named[j]
            != #[trigger] named[k] by {
            let oj = if j <= i {
                j
            } else {
                j - 1
            };
            let ok = if k <= i {
                k
            } else {
                k - 1
            };
            if j != i + 1 {
                assert(named[j] == ids[oj]);
            }
            if k != i + 1 {
                assert(named[k] == ids[ok]);
            }
        }
        assert forall|key: u64| #[trigger] queued.contains_key(key) implies exists|j: int|
            0 <= j < named.len() - 1 && #[trigger] named[j] == key by {
            if key == ids[i] {
                assert(named[i] == key);
            } else if key == fresh {
                assert(named[i + 1] == key);
            } else {
                assert(queue.contains_key(key));
                let j = choose|j: int| 0 <= j < ids.len() - 1 && #[trigger] ids[j] == key;
                if j <= i {
                    assert(named[j] == key);
                } else {
                    assert(named[j + 1] == key);
                }
            }
        }
        assert forall|j: int| 0 <= j < grown.len() - 1 implies #[trigger] self.step_ok(
            grown,
            named,
            queued,
            j,
        ) by {
            if j < i {
                assert(self.step_ok(paths, ids, queue, j));
                assert(named[j] == ids[j] && grown[j] == paths[j] && grown[j + 1] == paths[j + 1]);
            } else if j == i {
                assert(named[j] == ids[i]);
            } else if j == i + 1 {
                assert(named[j] == fresh);
            } else {
                assert(self.step_ok(paths, ids, queue, j - 1));
                assert(named[j] == ids[j - 1] && grown[j] == paths[j - 1] && grown[j + 1]
                    == paths[j]);
            }
        }
    }

    /// The state in which the refinement starts: the two ends of the
    /// frontier, with the step between them queued.
    proof fn lemma_refinement_start(&self, short: Path, safe: Path, queue: Map<u64, i128>)
        requires
            self.is_best(short),
            self.is_best(safe),
            short.alpha == (Weight { num: 0, den: 1 }),
            safe.alpha == (Weight { num: RISK_AVERSE, den: 1 }),
            queue.dom() == Set::<u64>::empty().insert(0u64),
        ensures
            self.refinement_ok(seq![short, safe], seq![0u64, 1u64], queue),
    {
        reveal(BicriteriaDijkstraInstance::refinement_ok);
        let paths = seq![short, safe];
        let ids = seq![0u64, 1u64];
        self.lemma_seeds_in_order(short, safe);
        assert(self.pair_ok(paths, 0));
        assert(queue.contains_key(0u64));
        assert(self.step_ok(paths, ids, queue, 0));
        assert forall|key: u64| #[trigger] queue.contains_key(key) implies exists|j: int|
            0 <= j < ids.len() - 1 && #[trigger] ids[j] == key by {
            assert(queue.dom().contains(key));
            assert(ids[0] == key);
        }
    }

    /// The step that the refinement takes from the queue is a step of the
    /// frontier.
    proof fn lemma_refinement_step(
        &self,
        paths: Seq<Path>,
        ids: Seq<u64>,
        queue: Map<u64, i128>,
        key: u64,
    )
        requires
            self.refinement_ok(paths, ids, queue),
            queue.contains_key(key),
        ensures
            ids.len() == paths.len(),
            paths.len() >= 2,
            self.frontier_ok(paths),
            exists|j: int| 0 <= j < ids.len() - 1 && #[trigger] ids[j] == key,
    {
        reveal(BicriteriaDijkstraInstance::refinement_ok);
    }

    /// Two neighbours of the frontier are cheapest paths in order.
    proof fn lemma_refinement_pair(
        &self,
        paths: Seq<Path>,
        ids: Seq<u64>,
        queue: Map<u64, i128>,
        i: int,
    )
        requires
            self.refinement_ok(paths, ids, queue),
            0 <= i < paths.len() - 1,
        ensures
            paths[i].risk >= paths[i + 1].risk,
            paths[i].length_m <= paths[i + 1].length_m,
            self.is_best(paths[i]),
            self.is_best(paths[i + 1]),
    {
        reveal(BicriteriaDijkstraInstance::refinement_ok);
        assert(self.pair_ok(paths, i));
    }

    /// A cheapest path under the weight between two neighbours that does not
    /// lie strictly between them shows that nothing is left to refine there.
    proof fn lemma_converged_by(&self, p: Path, q: Path, found: Path)
        requires
            self.is_best(found),
            found.alpha == slope(p, q),
            !(found.risk < p.risk && found.length_m < q.length_m),
        ensures
            self.converged(p, q),
    {
        reveal(BicriteriaDijkstraInstance::is_best);
        assert(self.is_best_route(slope(p, q), found.path@));
    }

    /// The cheapest path under a weight, known as such.
    fn best_path(&self, alpha: Weight) -> (found: Result<Path, SearchError>)
        requires
            self.wf(),
            alpha.wf(),
        ensures
            match found {
                Ok(path) => {
                    &&& self.is_best(path)
                    &&& path.alpha == alpha
                    &&& path.length_m <= self.label_bound(alpha)
                    &&& path.risk <= self.drop_cap()
                },
                Err(SearchError::NoPathFound) => forall|t: Seq<Coord<i16>>| !#[trigger] self.is_route(
                    t,
                ),
                Err(SearchError::Geometry(e)) => exists|u: Coord<i16>, v: Coord<i16>|
                    self.risk_map.in_domain(u) && #[trigger] self.adjacent(u, v)
                        && self.risk_map.spec_risk(u, v, self.r_m) == Err::<int, _>(e),
                Err(SearchError::Overflow) => self.label_bound(alpha) > i128::MAX,
                Err(SearchError::FrontierFull) => false,
            },
            self.label_bound(alpha) <= i128::MAX && self.regular() && self.search_limit >= 1
                ==> found is Ok,
            self.search_limit >= 1 ==> !(found matches Err(SearchError::NoPathFound)),
            self.regular() ==> !(found matches Err(SearchError::Geometry(_))),
    {
        proof {
            if self.search_limit >= 1 {
                self.lemma_route_exists();
            }
        }
        match self.run_with_alpha(alpha) {
            Ok(path) => {
                proof {
                    assert(self.is_best(path)) by {
                        reveal(BicriteriaDijkstraInstance::is_best);
                    }
                    self.lemma_path_within_caps(path);
                }
                Ok(path)
            },
            Err(e) => Err(e),
        }
    }

    /// The frontier holds no more paths than the risk falls from its first
    /// to its last, and two.
    proof fn lemma_refinement_room(&self, paths: Seq<Path>, ids: Seq<u64>, queue: Map<u64, i128>)
        requires
            self.refinement_ok(paths, ids, queue),
        ensures
            paths.len() >= 2,
            ids.len() == paths.len(),
            paths[0].risk - paths.last().risk + 2 >= paths.len(),
            queue.dom().finite(),
    {
        reveal(BicriteriaDijkstraInstance::refinement_ok);
        if paths.len() > 2 {
            self.lemma_risk_falls(paths, paths.len() - 1);
        } else {
            assert(self.pair_ok(paths, 0));
        }
    }

    /// Refines the step that was queued under `key`, which has just left the
    /// queue: where the step is steep, a search under the weight between its
    /// two paths is run, and a path that lies strictly between the two takes
    /// its place there, with both steps beside it queued ahead of all
    /// others, the one before it first. Tells whether the frontier has grown.
    #[verifier::rlimit(40)]
    fn refine(
        &self,
        paths: &mut Vec<Path>,
        ids: &mut Vec<u64>,
        queue: &mut priority_queue::PriorityQueue<u64, i128>,
        key: u64,
        Ghost(before): Ghost<Map<u64, i128>>,
    ) -> (grown: Result<bool, SearchError>)
        requires
            self.wf(),
            self.refinement_ok(old(paths)@, old(ids)@, before),
            before.contains_key(key),
            queue_entries(*old(queue)) == before.remove(key),
        ensures
            match grown {
                Ok(grown) => {
                    &&& self.refinement_ok(final(paths)@, final(ids)@, queue_entries(*final(queue)))
                    &&& final(paths)@[0] == old(paths)@[0]
                    &&& final(paths)@.last() == old(paths)@.last()
                    &&& final(paths)@.len() >= 2
                    &&& grown ==> final(paths)@.len() == old(paths)@.len() + 1 && old(
                        paths,
                    )@[0].risk - old(paths)@.last().risk >= old(paths)@.len()
                    &&& !grown ==> final(paths)@ == old(paths)@ && queue_entries(
                        *final(queue),
                    ).dom().len() < before.dom().len()
                },
                Err(SearchError::NoPathFound) => forall|t: Seq<Coord<i16>>| !#[trigger] self.is_route(
                    t,
                ),
                Err(SearchError::Geometry(e)) => exists|u: Coord<i16>, v: Coord<i16>|
                    self.risk_map.in_domain(u) && #[trigger] self.adjacent(u, v)
                        && self.risk_map.spec_risk(u, v, self.r_m) == Err::<int, _>(e),
                Err(SearchError::Overflow) => exists|i: int| #[trigger]
                    self.overflows_at(old(paths)@, i),
                Err(SearchError::FrontierFull) => old(paths)@.len() == usize::MAX && self.frontier_ok(
                    old(paths)@,
                ),
            },
            self.search_limit >= 1 ==> !(grown matches Err(SearchError::NoPathFound)),
            self.regular() ==> !(grown matches Err(SearchError::Geometry(_))),
            self.search_limit >= 1 && self.regular() && self.refinement_fits() && old(
                paths,
            )@[0].risk <= self.drop_cap() && old(paths)@.last().length_m <= self.rise_cap()
                ==> grown is Ok,
    {
        proof {
            self.lemma_refinement_step(paths@, ids@, before, key);
            self.lemma_refinement_room(paths@, ids@, before);
        }
        let count: usize = paths.len();
        if count == usize::MAX {
            return Err(SearchError::FrontierFull);
        }
        let i: usize = position_of(ids, key);
        proof {
            self.lemma_refinement_pair(paths@, ids@, before, i as int);
            if self.refinement_fits() && paths@[0].risk <= self.drop_cap() && paths@.last().length_m
                <= self.rise_cap() {
                self.lemma_slope_fits(paths@, i as int);
            }
        }
        let drop: u128 = paths[i].risk - paths[i + 1].risk;
        let rise: u128 = paths[i + 1].length_m - paths[i].length_m;
        if !is_steep(drop, rise) {
            proof {
                self.lemma_refinement_settle(paths@, ids@, before, i as int);
            }
            return Ok(false);
        }
        let alpha = Weight { num: rise, den: drop };
        assert(drop >= 1) by (nonlinear_arith)
            requires
                drop * STEEPNESS > rise,
                rise >= 0,
                drop >= 0,
        ;
        let found = match self.best_path(alpha) {
            Ok(path) => path,
            Err(e) => {
                proof {
                    if e == SearchError::Overflow {
                        assert(self.overflows_at(paths@, i as int));
                    }
                }
                return Err(e);
            },
        };
        if found.risk < paths[i].risk && found.length_m < paths[i + 1].length_m {
            let fresh: u64 = paths.len() as u64;
            let later: i128 = 2 * (fresh as i128);
            proof {
                self.lemma_refinement_insert(
                    paths@,
                    ids@,
                    before,
                    i as int,
                    found,
                    later,
                    (later + 1) as i128,
                );
            }
            paths.insert(i + 1, found);
            ids.insert(i + 1, fresh);
            queue_push(queue, fresh, later);
            queue_push(queue, key, later + 1);
            Ok(true)
        } else {
            proof {
                self.lemma_converged_by(paths@[i as int], paths@[i + 1], found);
                self.lemma_refinement_settle(paths@, ids@, before, i as int);
            }
            Ok(false)
        }
    }

    /// The approximate Pareto frontier of risk against length between the
    /// origin and the destination.
    ///
    /// The frontier starts as a shortest path and a cheapest path under the
    /// risk-averse weight. Each steep step between two neighbours is refined
    /// by a search under the weight between them, the latest step first; a
    /// path that lies strictly between the neighbours takes its place there.
    #[verifier::rlimit(40)]
    pub fn compute_pareto_apx_paths(&self) -> (frontier: Result<Vec<Path>, SearchError>)
        requires
            self.wf(),
        ensures
            match frontier {
                Ok(paths) => self.frontier_ok(paths@) && self.frontier_converged(paths@),
                Err(SearchError::NoPathFound) => forall|t: Seq<Coord<i16>>| !#[trigger] self.is_route(
                    t,
                ),
                Err(SearchError::Geometry(e)) => exists|u: Coord<i16>, v: Coord<i16>|
                    self.risk_map.in_domain(u) && #[trigger] self.adjacent(u, v)
                        && self.risk_map.spec_risk(u, v, self.r_m) == Err::<int, _>(e),
                Err(SearchError::Overflow) => {
                    ||| self.label_bound(Weight { num: 0, den: 1 }) > i128::MAX
                    ||| self.label_bound(Weight { num: RISK_AVERSE, den: 1 }) > i128::MAX
                    ||| exists|paths: Seq<Path>, i: int| #[trigger] self.overflows_at(paths, i)
                },
                Err(SearchError::FrontierFull) => exists|paths: Seq<Path>| #[trigger]
                    self.frontier_ok(paths) && paths.len() == usize::MAX,
            },
            self.search_limit >= 1 ==> !(frontier matches Err(SearchError::NoPathFound)),
            self.regular() ==> !(frontier matches Err(SearchError::Geometry(_))),
            self.search_limit >= 1 && self.regular() && self.refinement_fits() ==> frontier is Ok,
    {
        proof {
            self.lemma_seed_fits();
        }
        let short = match self.best_path(Weight { num: 0, den: 1 }) {
            Ok(path) => path,
            Err(e) => {
                return Err(e);
            },
        };
        let safe = match self.best_path(Weight { num: RISK_AVERSE, den: 1 }) {
            Ok(path) => path,
            Err(e) => {
                return Err(e);
            },
        };
        let ghost top = short.risk as int;
        let ghost low = safe.risk as int;
        let ghost far = safe.length_m as int;
        let ghost start = seq![short, safe];
        let mut paths: Vec<Path> = Vec::new();
        paths.push(short);
        paths.push(safe);
        let mut ids: Vec<u64> = Vec::new();
        ids.push(0);
        ids.push(1);
        let mut queue = queue_new();
        queue_push(&mut queue, 0, 0);
        proof {
            assert(queue_entries(queue).dom() =~= Set::<u64>::empty().insert(0u64));
            assert(paths@ =~= start);
            assert(ids@ =~= seq![0u64, 1u64]);
            self.lemma_refinement_start(start[0], start[1], queue_entries(queue));
        }
        loop
            invariant
                self.wf(),
                self.refinement_ok(paths@, ids@, queue_entries(queue)),
                paths@.len() >= 2,
                paths@[0].risk == top,
                paths@.last().risk == low,
                paths@.last().length_m == far,
                top <= self.drop_cap(),
                far <= self.rise_cap(),
            ensures
                self.frontier_ok(paths@),
                self.frontier_converged(paths@),
            decreases top - low + 2 - paths@.len(), queue_entries(queue).dom().len(),
        {
            let ghost before = queue_entries(queue);
            proof {
                self.lemma_refinement_room(paths@, ids@, before);
            }
            let key: u64 = match queue_pop(&mut queue) {
                Some(top) => top.0,
                None => {
                    proof {
                        self.lemma_refinement_done(paths@, ids@, before);
                    }
                    break ;
                },
            };
            match self.refine(&mut paths, &mut ids, &mut queue, key, Ghost(before)) {
                Ok(_) => {},
                Err(e) => {
                    return Err(e);
                },
            }
        }
        Ok(paths)
    }
}

/// Whether a step along which the risk drops by `drop` while the length
/// rises by `rise` is steep enough to be refined.
fn is_steep(drop: u128, rise: u128) -> (yes: bool)
    ensures
        yes == (drop * STEEPNESS > rise),
{
    match drop.checked_mul(STEEPNESS) {
        Some(scaled) => scaled > rise,
        None => true,
    }
}

/// The position of an identifier that stands before the last.
fn position_of(ids: &Vec<u64>, key: u64) -> (i: usize)
    requires
        exists|j: int| 0 <= j < ids@.len() - 1 && #[trigger] ids@[j] == key,
    ensures
        i < ids@.len() - 1,
        ids@[i as int] == key,
{
    let n: usize = ids.len();
    let mut i: usize = 0;
    while ids[i] != key
        invariant
            n == ids@.len(),
            0 <= i < n - 1,
            exists|j: int| i <= j < n - 1 && #[trigger] ids@[j] == key,
        decreases n - i,
    {
        i = i + 1;
    }
    i
}

} // verus!
