//! The state of a search for the cheapest path: what the labels, the queue
//! and the settled nodes have to do with each other while the search runs,
//! and why that makes the label of the destination the cost of a cheapest path.

use crate::bicriteria_dijkstra::{BicriteriaDijkstraInstance, Weight};
use crate::coord::Coord;
use crate::fixed::lemma_int_sqrt_exists;
use crate::risks::MAX_LENGTH;
use vstd::prelude::*;
use vstd::set_lib::{lemma_int_range, lemma_len_subset, set_int_range};

verus! {

/// What the search knows of a labelled node: its label and its predecessor.
pub type Labels = Map<u64, (i128, u64)>;

impl<'a> BicriteriaDijkstraInstance<'a> {
    /// The code of the origin.
    pub open spec fn source(&self) -> u64 {
        self.risk_map.code(self.from) as u64
    }

    /// `k` is the code of a valid cell.
    pub open spec fn valid_key(&self, k: u64) -> bool {
        &&& k < self.risk_map.node_count()
        &&& self.risk_map.in_domain(self.risk_map.decode(k as int))
        &&& self.risk_map.code(self.risk_map.decode(k as int)) == k
    }

    /// Every labelled node is a valid cell with a label that is not negative;
    /// the origin has the label zero; every other labelled node has a settled
    /// predecessor of which it is a neighbour, and its label is its
    /// predecessor's label and the cost of the edge between them.
    pub open spec fn tree_ok(&self, alpha: Weight, labels: Labels, settled: Set<int>) -> bool {
        &&& forall|k: u64| #[trigger] labels.contains_key(k) ==> self.valid_key(k) && labels[k].0 >= 0
        &&& labels.contains_key(self.source())
        &&& labels[self.source()] == (0i128, self.source())
        &&& forall|k: u64| #[trigger]
            labels.contains_key(k) && k != self.source() ==> {
                let p = labels[k].1;
                &&& settled.contains(p as int)
                &&& labels.contains_key(p)
                &&& self.adjacent(
                    self.risk_map.decode(p as int),
                    self.risk_map.decode(k as int),
                )
                &&& self.risk_map.spec_risk(
                    self.risk_map.decode(p as int),
                    self.risk_map.decode(k as int),
                    self.r_m,
                ) is Ok
                &&& labels[k].0 == labels[p].0 + self.edge_cost(
                    alpha,
                    self.risk_map.decode(p as int),
                    self.risk_map.decode(k as int),
                )
            }
    }

    /// The settled nodes are labelled, with labels up to `floor`; every other
    /// labelled node has a label from `floor` up.
    pub open spec fn settled_ok(&self, labels: Labels, settled: Set<int>, floor: int) -> bool {
        &&& forall|s: int| #[trigger]
            settled.contains(s) ==> 0 <= s < self.risk_map.node_count() && labels.contains_key(
                s as u64,
            ) && labels[s as u64].0 <= floor
        &&& forall|k: u64| #[trigger]
            labels.contains_key(k) && !settled.contains(k as int) ==> labels[k].0 >= floor
    }

    /// The edge from the node `s` to the cell `v` has been relaxed: `v` is
    /// labelled, with no more than the label of `s` and the cost of the edge.
    pub open spec fn edge_relaxed(&self, alpha: Weight, labels: Labels, s: u64, v: Coord<i16>) -> bool {
        &&& labels.contains_key(self.risk_map.code(v) as u64)
        &&& labels[self.risk_map.code(v) as u64].0 <= labels[s].0 + self.edge_cost(
            alpha,
            self.risk_map.decode(s as int),
            v,
        )
    }

    /// Every edge that leaves the node `s` has been relaxed.
    pub open spec fn relaxed(&self, alpha: Weight, labels: Labels, s: u64) -> bool {
        forall|v: Coord<i16>| #[trigger]
            self.adjacent(self.risk_map.decode(s as int), v) ==> self.edge_relaxed(
                alpha,
                labels,
                s,
                v,
            )
    }

    /// Every edge that leaves a node of `done` has been relaxed.
    pub open spec fn all_relaxed(&self, alpha: Weight, labels: Labels, done: Set<int>) -> bool {
        forall|s: int| #[trigger] done.contains(s) ==> self.relaxed(alpha, labels, s as u64)
    }

    /// A path from the origin costs at least `floor`, unless it ends in a
    /// node of `done`: then it costs at least that node's label.
    ///
    /// This holds when every edge out of `done` has been relaxed and every
    /// labelled node outside `done` has a label from `floor` up.
    pub proof fn lemma_trail_lower_bound(
        &self,
        alpha: Weight,
        labels: Labels,
        done: Set<int>,
        floor: int,
        t: Seq<Coord<i16>>,
    )
        requires
            self.wf(),
            alpha.wf(),
            labels.contains_key(self.source()),
            labels[self.source()].0 == 0,
            self.all_relaxed(alpha, labels, done),
            forall|k: u64| #[trigger]
                labels.contains_key(k) && !done.contains(k as int) ==> labels[k].0 >= floor,
            self.is_trail(t),
        ensures
            self.trail_cost(alpha, t) >= floor || (done.contains(self.risk_map.code(t[0]))
                && labels.contains_key(self.risk_map.code(t[0]) as u64) && labels[self.risk_map.code(
                t[0],
            ) as u64].0 <= self.trail_cost(alpha, t)),
        decreases t.len(),
    {
        self.lemma_trail_head_valid(t);
        self.risk_map.lemma_code(t[0]);
        if t.len() == 1 {
            assert(self.trail_cost(alpha, t) == 0) by (nonlinear_arith)
                requires
                    self.trail_risk(t) == 0,
                    self.trail_length(t) == 0,
                    self.trail_cost(alpha, t) == alpha.num * self.trail_risk(t) + alpha.den
                        * self.trail_length(t),
            ;
        } else {
            let rest = t.drop_first();
            let y = rest[0];
            let x = t[0];
            assert(rest.last() == t.last());
            self.lemma_trail_lower_bound(alpha, labels, done, floor, rest);
            self.lemma_trail_head_valid(rest);
            self.risk_map.lemma_code(y);
            self.lemma_edge_bounds(y, x);
            let r0 = self.trail_risk(rest);
            let l0 = self.trail_length(rest);
            let er = self.edge_risk(y, x);
            let el = self.edge_length(y, x);
            let n = alpha.num as int;
            let d = alpha.den as int;
            assert(n * (er + r0) == n * er + n * r0) by (nonlinear_arith);
            assert(d * (el + l0) == d * el + d * l0) by (nonlinear_arith);
            assert(n * er >= 0 && d * el >= 0) by (nonlinear_arith)
                requires
                    er >= 0,
                    el >= 0,
                    n >= 0,
                    d >= 0,
            ;
            assert(self.trail_cost(alpha, t) == self.trail_cost(alpha, rest) + self.edge_cost(
                alpha,
                y,
                x,
            ));
            if self.trail_cost(alpha, rest) >= floor {
            } else {
                let ky = self.risk_map.code(y);
                assert(done.contains(ky));
                assert(self.relaxed(alpha, labels, ky as u64));
                assert(self.adjacent(self.risk_map.decode(ky), x));
                assert(self.edge_relaxed(alpha, labels, ky as u64, x));
            }
        }
    }

    /// The queue holds the labelled nodes that are not settled, each with its
    /// label negated as its priority.
    pub open spec fn queue_ok(&self, labels: Labels, queue: Map<u64, i128>, settled: Set<int>) -> bool {
        &&& forall|k: u64| #[trigger]
            queue.contains_key(k) ==> labels.contains_key(k) && !settled.contains(k as int)
                && queue[k] == -labels[k].0
        &&& forall|k: u64| #[trigger]
            labels.contains_key(k) && !settled.contains(k as int) ==> queue.contains_key(k)
    }

    /// No label is above the cost cap for each settled node, and the settled
    /// nodes are no more than the valid cells.
    pub open spec fn bound_ok(&self, alpha: Weight, labels: Labels, settled: Set<int>) -> bool {
        &&& settled.finite()
        &&& settled.len() <= self.risk_map.node_count()
        &&& forall|k: u64| #[trigger]
            labels.contains_key(k) ==> labels[k].0 <= settled.len() * self.cost_cap(alpha)
    }

    /// What holds of the search between two nodes that it settles.
    #[verifier::opaque]
    pub open spec fn search_inv(
        &self,
        alpha: Weight,
        labels: Labels,
        queue: Map<u64, i128>,
        settled: Set<int>,
        floor: int,
    ) -> bool {
        &&& self.tree_ok(alpha, labels, settled)
        &&& self.settled_ok(labels, settled, floor)
        &&& self.all_relaxed(alpha, labels, settled)
        &&& self.queue_ok(labels, queue, settled)
        &&& self.bound_ok(alpha, labels, settled)
    }

    /// What holds of the search while it relaxes the edges out of the node
    /// `u`, with the first `done` of the neighbours `all` behind it.
    #[verifier::opaque]
    pub open spec fn relax_inv(
        &self,
        alpha: Weight,
        labels: Labels,
        queue: Map<u64, i128>,
        settled: Set<int>,
        u: u64,
        all: Seq<Coord<i16>>,
        done: int,
    ) -> bool {
        &&& settled.contains(u as int)
        &&& labels.contains_key(u)
        &&& self.tree_ok(alpha, labels, settled)
        &&& self.settled_ok(labels, settled, labels[u].0 as int)
        &&& self.all_relaxed(alpha, labels, settled.remove(u as int))
        &&& self.queue_ok(labels, queue, settled)
        &&& self.bound_ok(alpha, labels, settled)
        &&& labels[u].0 <= (settled.len() - 1) * self.cost_cap(alpha)
        &&& 0 <= done <= all.len()
        &&& forall|j: int| 0 <= j < done ==> self.edge_relaxed(alpha, labels, u, #[trigger] all[j])
    }

    /// The state in which the search starts: the origin alone, labelled zero
    /// and queued.
    pub(crate) proof fn lemma_search_start(&self, alpha: Weight, labels: Labels, queue: Map<u64, i128>)
        requires
            self.wf(),
            alpha.wf(),
            labels == Map::<u64, (i128, u64)>::empty().insert(
                self.source(),
                (0i128, self.source()),
            ),
            queue == Map::<u64, i128>::empty().insert(self.source(), 0i128),
        ensures
            self.search_inv(alpha, labels, queue, Set::empty(), 0),
    {
        reveal(BicriteriaDijkstraInstance::search_inv);
        reveal(BicriteriaDijkstraInstance::relax_inv);
        self.risk_map.lemma_code(self.from);
        let settled = Set::<int>::empty();
        assert(settled.len() * self.cost_cap(alpha) == 0) by (nonlinear_arith)
            requires
                settled.len() == 0,
        ;
    }

    /// Popping the queue settles a node: the state is then ready for that
    /// node's edges to be relaxed.
    #[verifier::rlimit(40)]
    pub(crate) proof fn lemma_search_pop(
        &self,
        alpha: Weight,
        labels: Labels,
        queue: Map<u64, i128>,
        settled: Set<int>,
        floor: int,
        u: u64,
        all: Seq<Coord<i16>>,
    )
        requires
            self.wf(),
            alpha.wf(),
            self.search_inv(alpha, labels, queue, settled, floor),
            queue.contains_key(u),
            forall|other: u64| #[trigger] queue.contains_key(other) ==> queue[other] <= queue[u],
        ensures
            self.relax_inv(
                alpha,
                labels,
                queue.remove(u),
                settled.insert(u as int),
                u,
                all,
                0,
            ),
            settled.finite(),
            settled.insert(u as int).len() == settled.len() + 1,
            settled.insert(u as int).len() <= self.risk_map.node_count(),
            labels.contains_key(u),
            labels[u].0 == -queue[u],
            -queue[u] <= i128::MAX,
            self.valid_key(u),
    {
        reveal(BicriteriaDijkstraInstance::search_inv);
        reveal(BicriteriaDijkstraInstance::relax_inv);
        let after = settled.insert(u as int);
        let n = self.risk_map.node_count();
        lemma_int_range(0, n);
        assert(after.subset_of(set_int_range(0, n)));
        lemma_len_subset(after, set_int_range(0, n));
        let cap = self.cost_cap(alpha);
        self.lemma_cost_cap_sign(alpha);
        assert(settled.len() * cap <= after.len() * cap) by (nonlinear_arith)
            requires
                settled.len() <= after.len(),
                cap >= 0,
        ;
        assert(after.remove(u as int) =~= settled);
        assert forall|k: u64| #[trigger]
            labels.contains_key(k) && !after.contains(k as int) implies labels[k].0 >= labels[u].0 by {
            assert(queue.contains_key(k));
        }
    }

    /// The cost cap of a valid weight is at least one.
    pub(crate) proof fn lemma_cost_cap_sign(&self, alpha: Weight)
        requires
            self.risk_map.wf(),
            alpha.wf(),
        ensures
            self.cost_cap(alpha) >= 1,
    {
        self.lemma_edge_bounds(self.from, self.from);
        let rc = self.risk_cap();
        assert(alpha.num * rc >= 0 && alpha.den * MAX_LENGTH >= 1) by (nonlinear_arith)
            requires
                rc >= 0,
                alpha.den >= 1,
        ;
    }

    /// An edge whose end already has a label no larger than the edge offers
    /// counts as relaxed.
    pub(crate) proof fn lemma_relax_keep(
        &self,
        alpha: Weight,
        labels: Labels,
        queue: Map<u64, i128>,
        settled: Set<int>,
        u: u64,
        all: Seq<Coord<i16>>,
        done: int,
    )
        requires
            self.relax_inv(alpha, labels, queue, settled, u, all, done),
            done < all.len(),
            self.edge_relaxed(alpha, labels, u, all[done]),
        ensures
            self.relax_inv(alpha, labels, queue, settled, u, all, done + 1),
    {
        reveal(BicriteriaDijkstraInstance::search_inv);
        reveal(BicriteriaDijkstraInstance::relax_inv);
    }

    /// Giving the end of an edge the label that the edge offers, where that
    /// label is new or smaller, and queueing it, relaxes the edge and keeps
    /// the state.
    #[verifier::rlimit(40)]
    pub(crate) proof fn lemma_relax_update(
        &self,
        alpha: Weight,
        labels: Labels,
        queue: Map<u64, i128>,
        settled: Set<int>,
        u: u64,
        all: Seq<Coord<i16>>,
        done: int,
        offer: i128,
    )
        requires
            self.wf(),
            alpha.wf(),
            self.relax_inv(alpha, labels, queue, settled, u, all, done),
            done < all.len(),
            self.adjacent(self.risk_map.decode(u as int), all[done]),
            self.risk_map.in_domain(all[done]),
            self.valid_key(u),
            self.risk_map.spec_risk(self.risk_map.decode(u as int), all[done], self.r_m) is Ok,
            offer == labels[u].0 + self.edge_cost(
                alpha,
                self.risk_map.decode(u as int),
                all[done],
            ),
            !labels.contains_key(self.risk_map.code(all[done]) as u64) || labels[self.risk_map.code(
                all[done],
            ) as u64].0 > offer,
        ensures
            self.relax_inv(
                alpha,
                labels.insert(self.risk_map.code(all[done]) as u64, (offer, u)),
                queue.insert(self.risk_map.code(all[done]) as u64, (-offer) as i128),
                settled,
                u,
                all,
                done + 1,
            ),
            self.risk_map.code(all[done]) as u64 != u,
    {
        reveal(BicriteriaDijkstraInstance::search_inv);
        reveal(BicriteriaDijkstraInstance::relax_inv);
        let v = all[done];
        let kv = self.risk_map.code(v) as u64;
        let ud = self.risk_map.decode(u as int);
        self.risk_map.lemma_code(v);
        self.risk_map.lemma_code(self.from);
        self.lemma_edge_bounds(ud, v);
        let cost = self.edge_cost(alpha, ud, v);
        let cap = self.cost_cap(alpha);
        let next = labels.insert(kv, (offer, u));
        let queued = queue.insert(kv, (-offer) as i128);
        assert(1 <= cost <= cap) by {
            let dx = ud.x - v.x;
            let dy = ud.y - v.y;
            self.lemma_length_cap(ud, v);
            self.lemma_edge_cost_bounds(alpha, ud, v);
        }
        // the end of the edge is not settled: a settled label is no larger than the offer
        assert(!settled.contains(kv as int));
        assert(kv != u);
        assert(kv != self.source());
        // room under the bound
        let n = self.risk_map.node_count();
        lemma_int_range(0, n);
        assert(settled.remove(u as int).subset_of(set_int_range(0, n)));
        assert(settled.len() >= 1);
        assert(offer <= settled.len() * cap) by (nonlinear_arith)
            requires
                offer == labels[u].0 + cost,
                labels[u].0 <= (settled.len() - 1) * cap,
                cost <= cap,
        ;
        assert(self.tree_ok(alpha, next, settled)) by {
            assert forall|k: u64| #[trigger] next.contains_key(k) implies self.valid_key(k)
                && next[k].0 >= 0 by {
                if k != kv {
                    assert(labels.contains_key(k));
                }
            }
            assert forall|k: u64| #[trigger]
                next.contains_key(k) && k != self.source() implies {
                let p = next[k].1;
                &&& settled.contains(p as int)
                &&& next.contains_key(p)
                &&& self.adjacent(self.risk_map.decode(p as int), self.risk_map.decode(k as int))
                &&& self.risk_map.spec_risk(
                    self.risk_map.decode(p as int),
                    self.risk_map.decode(k as int),
                    self.r_m,
                ) is Ok
                &&& next[k].0 == next[p].0 + self.edge_cost(
                    alpha,
                    self.risk_map.decode(p as int),
                    self.risk_map.decode(k as int),
                )
            } by {
                if k != kv {
                    assert(labels.contains_key(k));
                    let p = labels[k].1;
                    assert(settled.contains(p as int));
                    assert(p != kv);
                }
            }
        }
        assert(self.settled_ok(next, settled, next[u].0 as int)) by {
            assert forall|s: int| #[trigger] settled.contains(s) implies 0 <= s
                < self.risk_map.node_count() && next.contains_key(s as u64) && next[s as u64].0
                <= next[u].0 by {
                assert(s != kv);
            }
            assert forall|k: u64| #[trigger]
                next.contains_key(k) && !settled.contains(k as int) implies next[k].0
                >= next[u].0 by {
                if k != kv {
                    assert(labels.contains_key(k));
                }
            }
        }
        assert(self.all_relaxed(alpha, next, settled.remove(u as int))) by {
            assert forall|s: int| #[trigger] settled.remove(u as int).contains(s) implies self.relaxed(
                alpha,
                next,
                s as u64,
            ) by {
                assert(settled.contains(s));
                assert(self.relaxed(alpha, labels, s as u64));
                assert forall|w: Coord<i16>| #[trigger]
                    self.adjacent(self.risk_map.decode(s as u64 as int), w) implies self.edge_relaxed(
                    alpha,
                    next,
                    s as u64,
                    w,
                ) by {
                    assert(self.edge_relaxed(alpha, labels, s as u64, w));
                }
            }
        }
        assert(self.queue_ok(next, queued, settled)) by {
            assert forall|k: u64| #[trigger] queued.contains_key(k) implies next.contains_key(k)
                && !settled.contains(k as int) && queued[k] == -next[k].0 by {
                if k != kv {
                    assert(queue.contains_key(k));
                }
            }
            assert forall|k: u64| #[trigger]
                next.contains_key(k) && !settled.contains(k as int) implies queued.contains_key(
                k,
            ) by {
                if k != kv {
                    assert(labels.contains_key(k));
                }
            }
        }
        assert(self.bound_ok(alpha, next, settled)) by {
            assert forall|k: u64| #[trigger] next.contains_key(k) implies next[k].0
                <= settled.len() * cap by {
                if k != kv {
                    assert(labels.contains_key(k));
                }
            }
        }
        assert forall|j: int| 0 <= j < done + 1 implies self.edge_relaxed(
            alpha,
            next,
            u,
            #[trigger] all[j],
        ) by {
            if j < done {
                assert(self.edge_relaxed(alpha, labels, u, all[j]));
            }
        }
    }

    /// No edge is longer than the longest possible.
    pub(crate) proof fn lemma_length_cap(&self, u: Coord<i16>, v: Coord<i16>)
        requires
            self.risk_map.wf(),
        ensures
            self.edge_length(u, v) <= MAX_LENGTH,
    {
        let dx = u.x - v.x;
        let dy = u.y - v.y;
        let m = self.risk_map.m_per_pixel as int;
        let n = dx * dx + dy * dy;
        assert(0 <= n <= 8589672450) by (nonlinear_arith)
            requires
                -65535 <= dx <= 65535,
                -65535 <= dy <= 65535,
                n == dx * dx + dy * dy,
        ;
        assert(0 <= m * m <= 10_000_000_000_000 * 10_000_000_000_000) by (nonlinear_arith)
            requires
                0 <= m <= 10_000_000_000_000,
        ;
        assert(0 <= n * (m * m) <= 8589672450 * (10_000_000_000_000 * 10_000_000_000_000))
            by (nonlinear_arith)
            requires
                0 <= n <= 8589672450,
                0 <= m * m <= 10_000_000_000_000 * 10_000_000_000_000,
        ;
        lemma_int_sqrt_exists(n * (m * m));
        let r = crate::fixed::int_sqrt(n * (m * m));
        if r >= 1_000_000_000_000_000_000 {
            if r > 1_000_000_000_000_000_000 {
                crate::fixed::lemma_square_monotone(1_000_000_000_000_000_000, r);
            }
            assert(1_000_000_000_000_000_000int * 1_000_000_000_000_000_000int > 8589672450
                * (10_000_000_000_000int * 10_000_000_000_000int));
        }
    }

    /// When the queue has run empty without the destination settled, no path
    /// leads to the destination.
    pub(crate) proof fn lemma_no_route(
        &self,
        alpha: Weight,
        labels: Labels,
        queue: Map<u64, i128>,
        settled: Set<int>,
        floor: int,
    )
        requires
            self.wf(),
            alpha.wf(),
            self.search_inv(alpha, labels, queue, settled, floor),
            queue.dom() == Set::<u64>::empty(),
            !settled.contains(self.risk_map.code(self.to)),
        ensures
            forall|t: Seq<Coord<i16>>| !#[trigger] self.is_route(t),
    {
        reveal(BicriteriaDijkstraInstance::search_inv);
        assert forall|t: Seq<Coord<i16>>| !#[trigger] self.is_route(t) by {
            if self.is_route(t) {
                assert forall|k: u64| #[trigger]
                    labels.contains_key(k) && !settled.contains(k as int) implies labels[k].0
                    >= self.trail_cost(alpha, t) + 1 by {
                    assert(queue.contains_key(k));
                    assert(queue.dom().contains(k));
                }
                self.lemma_trail_lower_bound(
                    alpha,
                    labels,
                    settled,
                    self.trail_cost(alpha, t) + 1,
                    t,
                );
            }
        }
    }

    /// When the destination leaves the queue, its label is the least that a
    /// path to it can cost, and the predecessors lead back from it.
    pub(crate) proof fn lemma_route_found(
        &self,
        alpha: Weight,
        labels: Labels,
        queue: Map<u64, i128>,
        settled: Set<int>,
        floor: int,
    )
        requires
            self.wf(),
            alpha.wf(),
            self.search_inv(alpha, labels, queue, settled, floor),
            queue.contains_key(self.risk_map.code(self.to) as u64),
            forall|other: u64| #[trigger]
                queue.contains_key(other) ==> queue[other] <= queue[self.risk_map.code(
                    self.to,
                ) as u64],
        ensures
            forall|t: Seq<Coord<i16>>| #[trigger]
                self.is_route(t) ==> labels[self.risk_map.code(self.to) as u64].0
                    <= self.trail_cost(alpha, t),
            self.tree_ok(alpha, labels, settled),
            forall|s: int| #[trigger] settled.contains(s) ==> 0 <= s < self.risk_map.node_count(),
            labels.contains_key(self.risk_map.code(self.to) as u64),
            labels[self.risk_map.code(self.to) as u64].0 <= self.label_bound(alpha),
    {
        reveal(BicriteriaDijkstraInstance::search_inv);
        let dst = self.risk_map.code(self.to) as u64;
        self.risk_map.lemma_code(self.to);
        self.lemma_cost_cap_sign(alpha);
        assert(settled.len() * self.cost_cap(alpha) <= self.risk_map.node_count() * self.cost_cap(
            alpha,
        )) by (nonlinear_arith)
            requires
                settled.len() <= self.risk_map.node_count(),
                self.cost_cap(alpha) >= 0,
        ;
        assert forall|t: Seq<Coord<i16>>| #[trigger] self.is_route(t) implies labels[dst].0
            <= self.trail_cost(alpha, t) by {
            assert forall|k: u64| #[trigger]
                labels.contains_key(k) && !settled.contains(k as int) implies labels[k].0
                >= labels[dst].0 by {
                assert(queue.contains_key(k));
            }
            self.lemma_trail_lower_bound(alpha, labels, settled, labels[dst].0 as int, t);
        }
    }

    /// While a node's edges are relaxed, the node keeps its label.
    pub(crate) proof fn lemma_relax_label(
        &self,
        alpha: Weight,
        labels: Labels,
        queue: Map<u64, i128>,
        settled: Set<int>,
        u: u64,
        all: Seq<Coord<i16>>,
        done: int,
    )
        requires
            self.relax_inv(alpha, labels, queue, settled, u, all, done),
        ensures
            labels.contains_key(u),
            labels[u].0 >= 0,
    {
        reveal(BicriteriaDijkstraInstance::relax_inv);
    }

    /// With every neighbour behind it, the relaxation of a node's edges
    /// leaves the state that holds between two settled nodes.
    pub(crate) proof fn lemma_relax_done(
        &self,
        alpha: Weight,
        labels: Labels,
        queue: Map<u64, i128>,
        settled: Set<int>,
        u: u64,
        all: Seq<Coord<i16>>,
    )
        requires
            self.relax_inv(alpha, labels, queue, settled, u, all, all.len() as int),
            all == self.risk_map.neighbours(self.risk_map.decode(u as int), self.search_limit),
        ensures
            self.search_inv(alpha, labels, queue, settled, labels[u].0 as int),
    {
        reveal(BicriteriaDijkstraInstance::search_inv);
        reveal(BicriteriaDijkstraInstance::relax_inv);
        assert forall|s: int| #[trigger] settled.contains(s) implies self.relaxed(
            alpha,
            labels,
            s as u64,
        ) by {
            if s == u as int {
                assert forall|v: Coord<i16>| #[trigger]
                    self.adjacent(self.risk_map.decode(u as int), v) implies self.edge_relaxed(
                    alpha,
                    labels,
                    u,
                    v,
                ) by {
                    let j = choose|j: int| 0 <= j < all.len() && all[j] == v;
                    assert(self.edge_relaxed(alpha, labels, u, all[j]));
                }
            } else {
                assert(settled.remove(u as int).contains(s));
            }
        }
    }

    /// While a node's edges are relaxed, its label and the cost of any edge
    /// stay within the label range.
    pub(crate) proof fn lemma_offer(
        &self,
        alpha: Weight,
        labels: Labels,
        settled: Set<int>,
        u: u64,
        v: Coord<i16>,
    )
        requires
            self.wf(),
            alpha.wf(),
            self.label_bound(alpha) <= i128::MAX,
            exists|queue: Map<u64, i128>, all: Seq<Coord<i16>>, done: int|
                self.relax_inv(alpha, labels, queue, settled, u, all, done),
        ensures
            1 <= self.edge_cost(alpha, self.risk_map.decode(u as int), v),
            labels[u].0 + self.edge_cost(alpha, self.risk_map.decode(u as int), v) <= i128::MAX,
            self.edge_cost(alpha, self.risk_map.decode(u as int), v) <= i128::MAX,
    {
        reveal(BicriteriaDijkstraInstance::search_inv);
        reveal(BicriteriaDijkstraInstance::relax_inv);
        let ud = self.risk_map.decode(u as int);
        self.lemma_length_cap(ud, v);
        self.lemma_edge_cost_bounds(alpha, ud, v);
        assert(settled.len() >= 1) by {
            assert(settled.contains(u as int));
            if settled.len() == 0 {
                assert(settled =~= Set::empty());
            }
        }
        self.lemma_label_room(alpha, labels, settled, u);
    }

    /// While a node's edges are relaxed, its label and the cost of one more
    /// edge stay within the label range.
    pub(crate) proof fn lemma_label_room(&self, alpha: Weight, labels: Labels, settled: Set<int>, u: u64)
        requires
            self.wf(),
            alpha.wf(),
            self.label_bound(alpha) <= i128::MAX,
            self.bound_ok(alpha, labels, settled),
            settled.len() >= 1,
            labels.contains_key(u),
            labels[u].0 <= (settled.len() - 1) * self.cost_cap(alpha),
        ensures
            labels[u].0 + self.cost_cap(alpha) <= i128::MAX,
            self.cost_cap(alpha) <= i128::MAX,
    {
        let cap = self.cost_cap(alpha);
        let n = self.risk_map.node_count();
        self.lemma_cost_cap_sign(alpha);
        assert((settled.len() - 1) * cap + cap <= n * cap) by (nonlinear_arith)
            requires
                1 <= settled.len() <= n,
                cap >= 0,
        ;
        assert(cap <= n * cap) by (nonlinear_arith)
            requires
                1 <= n,
                cap >= 0,
        ;
    }

    /// One step back along the recorded predecessors: the chain gains the
    /// predecessor of its last node and the edge between the two, and that
    /// edge's cost is what the labels of the two differ by.
    pub(crate) proof fn lemma_unwrap_step(
        &self,
        alpha: Weight,
        labels: Labels,
        settled: Set<int>,
        k: u64,
        chain: Seq<Coord<i16>>,
    )
        requires
            self.wf(),
            alpha.wf(),
            self.tree_ok(alpha, labels, settled),
            forall|s: int| #[trigger] settled.contains(s) ==> 0 <= s < self.risk_map.node_count(),
            labels.contains_key(k),
            k != self.source(),
            chain.len() >= 1,
            chain.last() == self.risk_map.decode(k as int),
            self.is_chain(chain),
            self.follows_links(labels, chain),
            self.descending(labels, chain),
        ensures
            ({
                let p = labels[k].1;
                let prev = self.risk_map.decode(p as int);
                let node = self.risk_map.decode(k as int);
                &&& labels.contains_key(p)
                &&& self.follows_links(labels, chain.push(prev))
                &&& self.descending(labels, chain.push(prev))
                &&& self.edge_risk(prev, node) <= self.risk_cap()
                &&& self.valid_key(p)
                &&& self.valid_key(k)
                &&& 0 <= labels[p].0 < labels[k].0
                &&& self.risk_map.spec_risk(prev, node, self.r_m) is Ok
                &&& self.is_chain(chain.push(prev))
                &&& self.trail_risk(chain.push(prev)) == self.trail_risk(chain) + self.edge_risk(
                    prev,
                    node,
                )
                &&& self.trail_length(chain.push(prev)) == self.trail_length(chain)
                    + self.edge_length(prev, node)
                &&& self.trail_cost(alpha, chain.push(prev)) == self.trail_cost(alpha, chain)
                    + labels[k].0 - labels[p].0
            }),
    {
        let p = labels[k].1;
        let prev = self.risk_map.decode(p as int);
        let node = self.risk_map.decode(k as int);
        assert(labels.contains_key(p));
        self.lemma_edge_bounds(prev, node);
        self.lemma_length_cap(prev, node);
        self.lemma_edge_cost_bounds(alpha, prev, node);
        self.lemma_chain_push(chain, prev);
        let r0 = self.trail_risk(chain);
        let l0 = self.trail_length(chain);
        let er = self.edge_risk(prev, node);
        let el = self.edge_length(prev, node);
        let n = alpha.num as int;
        let d = alpha.den as int;
        assert(n * (r0 + er) == n * r0 + n * er) by (nonlinear_arith);
        assert(d * (l0 + el) == d * l0 + d * el) by (nonlinear_arith);
        let grown = chain.push(prev);
        assert(self.valid_key(k));
        assert(self.valid_key(p));
        assert forall|i: int| 0 <= i < grown.len() - 1 implies labels.contains_key(
            self.risk_map.code(#[trigger] grown[i]) as u64,
        ) && labels[self.risk_map.code(grown[i]) as u64].1 == self.risk_map.code(grown[i + 1]) by {
            if i < chain.len() - 1 {
                assert(grown[i] == chain[i] && grown[i + 1] == chain[i + 1]);
            } else {
                assert(grown[i] == node && grown[i + 1] == prev);
            }
        }
        assert forall|i: int, j: int| 0 <= i < j < grown.len() implies self.label_of(
            labels,
            #[trigger] grown[i],
        ) > self.label_of(labels, #[trigger] grown[j]) by {
            if j < chain.len() {
                assert(grown[i] == chain[i] && grown[j] == chain[j]);
            } else {
                assert(grown[j] == prev);
                assert(grown[i] == chain[i]);
                if i < chain.len() - 1 {
                    assert(self.label_of(labels, chain[i]) > self.label_of(
                        labels,
                        chain[chain.len() - 1],
                    ));
                }
            }
        }
    }

    /// A chain along which the labels fall holds each cell once.
    pub(crate) proof fn lemma_descending_once(&self, labels: Labels, t: Seq<Coord<i16>>)
        requires
            self.descending(labels, t),
        ensures
            self.each_once(t),
    {
        assert forall|i: int, j: int| 0 <= i < j < t.len() implies #[trigger] t[i] != #[trigger] t[j] by {
            assert(self.label_of(labels, t[i]) > self.label_of(labels, t[j]));
        }
    }
}

/// A set of numbers below `n` that gains another such number grows by one,
/// and still holds no more than `n`.
pub(crate) proof fn lemma_seen_grows(seen: Set<int>, k: int, n: int)
    requires
        seen.finite(),
        0 <= k < n,
        !seen.contains(k),
        forall|s: int| #[trigger] seen.contains(s) ==> 0 <= s < n,
    ensures
        seen.insert(k).finite(),
        seen.insert(k).len() == seen.len() + 1,
        seen.insert(k).len() <= n,
{
    lemma_int_range(0, n);
    assert(seen.insert(k).subset_of(set_int_range(0, n)));
    lemma_len_subset(seen.insert(k), set_int_range(0, n));
}

} // verus!
