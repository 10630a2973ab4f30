//! Bicriteria shortest paths: the graph that a risk map spans, what a path
//! through it costs under a weighted sum of risk and length, and the search
//! for the cheapest path.

use crate::coord::Coord;
use crate::fixed::lemma_int_sqrt_exists;
use crate::search_state::{lemma_seen_grows, Labels};
use crate::raster::GeometryError;
use crate::risks::{ConfigError, RiskMap, MAX_CELLS, MAX_LENGTH};
use crate::trusted::queue::{queue_entries, queue_new, queue_pop, queue_push};
use crate::trusted::table::{table_entries, table_get, table_insert, table_new, NodeTable};
use vstd::prelude::*;

verus! {

/// The weight of risk against length: a path costs `num` for each unit of
/// risk and `den` for each unit of length, so that risk counts `num / den`
/// length units.
#[derive(Clone, Copy, PartialEq, Eq, Debug)]
pub struct Weight {
    pub num: u128,
    pub den: u128,
}

impl Weight {
    /// Length counts for something.
    pub open spec fn wf(self) -> bool {
        self.den >= 1
    }
}

/// Why a search gave no path.
#[derive(Clone, Copy, PartialEq, Eq, Debug)]
pub enum SearchError {
    /// The destination cannot be reached from the origin.
    NoPathFound,
    /// The corridor of an edge cannot be rasterised.
    Geometry(GeometryError),
    /// The weight is so large that a path's cost may exceed the label range.
    Overflow,
    /// The frontier holds as many paths as can be counted.
    FrontierFull,
}

/// A path through the grid, stored from the destination back to the origin,
/// with its summed risk and length, the weight it was found under, and its
/// cost under that weight.
#[derive(Debug)]
pub struct Path {
    pub path: Vec<Coord<i16>>,
    pub linear_combination_weight: u128,
    pub risk: u128,
    pub length_m: u128,
    pub alpha: Weight,
}

impl Path {
    /// The cells of the path from the origin to the destination: the stored
    /// sequence turned round.
    pub fn origin_first(&self) -> (cells: Vec<Coord<i16>>)
        ensures
            cells@ == self.path@.reverse(),
    {
        let n: usize = self.path.len();
        let mut cells: Vec<Coord<i16>> = Vec::new();
        let mut i: usize = n;
        while i > 0
            invariant
                n == self.path@.len(),
                i <= n,
                cells@.len() == n - i,
                forall|k: int| 0 <= k < cells@.len() ==> cells@[k] == self.path@[n - 1 - k],
            decreases i,
        {
            i = i - 1;
            cells.push(self.path[i]);
        }
        assert(cells@ =~= self.path@.reverse());
        cells
    }
}

/// A search problem: a risk map, the origin and the destination, how far a
/// step may reach, and the half-width of the corridor in length units.
pub struct BicriteriaDijkstraInstance<'a> {
    pub risk_map: &'a RiskMap,
    pub from: Coord<i16>,
    pub to: Coord<i16>,
    pub search_limit: i16,
    pub r_m: u64,
}

impl<'a> BicriteriaDijkstraInstance<'a> {
    /// The map can be used, and both end points are valid cells.
    pub open spec fn wf(&self) -> bool {
        &&& self.risk_map.wf()
        &&& self.risk_map.in_domain(self.from)
        &&& self.risk_map.in_domain(self.to)
    }

    /// There is an edge from `u` to `v`: `v` is a neighbour of `u`.
    pub open spec fn adjacent(&self, u: Coord<i16>, v: Coord<i16>) -> bool {
        self.risk_map.neighbours(u, self.search_limit).contains(v)
    }

    /// The risk of the edge from `u` to `v`. An edge whose corridor cannot be
    /// rasterised counts no risk.
    pub open spec fn edge_risk(&self, u: Coord<i16>, v: Coord<i16>) -> int {
        match self.risk_map.spec_risk(u, v, self.r_m) {
            Ok(risk) => risk,
            Err(_) => 0,
        }
    }

    /// The length of the edge from `u` to `v`.
    pub open spec fn edge_length(&self, u: Coord<i16>, v: Coord<i16>) -> int {
        self.risk_map.spec_length(u, v)
    }

    /// The cost of the edge from `u` to `v` under a weight.
    pub open spec fn edge_cost(&self, alpha: Weight, u: Coord<i16>, v: Coord<i16>) -> int {
        alpha.num * self.edge_risk(u, v) + alpha.den * self.edge_length(u, v)
    }

    /// The corridor of every edge can be rasterised.
    pub open spec fn regular(&self) -> bool {
        forall|u: Coord<i16>, v: Coord<i16>|
            self.risk_map.in_domain(u) && #[trigger] self.adjacent(u, v)
                ==> self.risk_map.spec_risk(u, v, self.r_m) is Ok
    }

    /// Each cell of `t` but the last is a neighbour of the cell behind it.
    pub open spec fn is_chain(&self, t: Seq<Coord<i16>>) -> bool
        decreases t.len(),
    {
        if t.len() <= 1 {
            true
        } else {
            self.adjacent(t[1], t[0]) && self.is_chain(t.drop_first())
        }
    }

    /// `t` is a path from the origin, stored backwards: its last cell is the
    /// origin, and each cell before is a neighbour of the cell behind it.
    pub open spec fn is_trail(&self, t: Seq<Coord<i16>>) -> bool {
        &&& t.len() >= 1
        &&& t.last() == self.from
        &&& self.is_chain(t)
    }

    /// `t` is a path from the origin to the destination, stored backwards.
    pub open spec fn is_route(&self, t: Seq<Coord<i16>>) -> bool {
        self.is_trail(t) && t[0] == self.to
    }

    /// `t` is a cheapest path from the origin to the destination under `alpha`.
    pub open spec fn is_best_route(&self, alpha: Weight, t: Seq<Coord<i16>>) -> bool {
        &&& self.is_route(t)
        &&& forall|s: Seq<Coord<i16>>| #[trigger]
            self.is_route(s) ==> self.trail_cost(alpha, t) <= self.trail_cost(alpha, s)
    }

    /// The summed risk of the edges of a path stored backwards.
    pub open spec fn trail_risk(&self, t: Seq<Coord<i16>>) -> int
        decreases t.len(),
    {
        if t.len() <= 1 {
            0
        } else {
            self.edge_risk(t[1], t[0]) + self.trail_risk(t.drop_first())
        }
    }

    /// The summed length of the edges of a path stored backwards.
    pub open spec fn trail_length(&self, t: Seq<Coord<i16>>) -> int
        decreases t.len(),
    {
        if t.len() <= 1 {
            0
        } else {
            self.edge_length(t[1], t[0]) + self.trail_length(t.drop_first())
        }
    }

    /// The cost of a path under a weight.
    pub open spec fn trail_cost(&self, alpha: Weight, t: Seq<Coord<i16>>) -> int {
        alpha.num * self.trail_risk(t) + alpha.den * self.trail_length(t)
    }

    /// Each cell of `t` but the last has the cell behind it as its recorded
    /// predecessor: `t` walks the predecessor links of `labels`.
    pub open spec fn follows_links(&self, labels: Labels, t: Seq<Coord<i16>>) -> bool {
        forall|i: int|
            0 <= i < t.len() - 1 ==> labels.contains_key(
                self.risk_map.code(#[trigger] t[i]) as u64,
            ) && labels[self.risk_map.code(t[i]) as u64].1 == self.risk_map.code(t[i + 1])
    }

    /// The label that `labels` records for a cell.
    pub open spec fn label_of(&self, labels: Labels, c: Coord<i16>) -> int {
        labels[self.risk_map.code(c) as u64].0 as int
    }

    /// The labels fall from each cell of `t` to every cell behind it.
    pub open spec fn descending(&self, labels: Labels, t: Seq<Coord<i16>>) -> bool {
        forall|i: int, j: int|
            0 <= i < j < t.len() ==> self.label_of(labels, #[trigger] t[i]) > self.label_of(
                labels,
                #[trigger] t[j],
            )
    }

    /// No cell stands twice in `t`.
    pub open spec fn each_once(&self, t: Seq<Coord<i16>>) -> bool {
        forall|i: int, j: int| 0 <= i < j < t.len() ==> #[trigger] t[i] != #[trigger] t[j]
    }

    /// Whether `path` is a path from the origin to the destination with its
    /// sums and its cost under `alpha` rightly recorded.
    pub open spec fn path_ok(&self, alpha: Weight, path: Path) -> bool {
        &&& self.is_route(path.path@)
        &&& path.risk == self.trail_risk(path.path@)
        &&& path.length_m == self.trail_length(path.path@)
        &&& path.linear_combination_weight == self.trail_cost(alpha, path.path@)
        &&& path.alpha == alpha
    }

    /// The most risk that an edge can carry: the largest weight of the grid
    /// in every cell that a corridor can cover.
    pub open spec fn risk_cap(&self) -> int {
        MAX_CELLS * self.risk_map.peak()
    }

    /// The most that an edge can cost under a weight.
    pub open spec fn cost_cap(&self, alpha: Weight) -> int {
        alpha.num * self.risk_cap() + alpha.den * MAX_LENGTH
    }

    /// The most that a path without a repeated cell can cost under a weight.
    pub open spec fn label_bound(&self, alpha: Weight) -> int {
        self.risk_map.node_count() * self.cost_cap(alpha)
    }

    /// A search problem on a risk map.
    pub fn new(
        risk_map: &'a RiskMap,
        from: Coord<i16>,
        to: Coord<i16>,
        search_limit: i16,
        r: u64,
    ) -> (instance: Self)
        ensures
            instance.risk_map == risk_map,
            instance.from == from,
            instance.to == to,
            instance.search_limit == search_limit,
            instance.r_m == r,
    {
        Self { risk_map, from, to, search_limit, r_m: r }
    }

    /// Checks the problem: `Ok` exactly when the map can be used and both
    /// end points are valid cells.
    pub fn validate(&self) -> (checked: Result<(), ConfigError>)
        ensures
            checked is Ok <==> self.wf(),
            checked matches Err(e) ==> (if self.risk_map.wf() {
                e == ConfigError::Endpoint
            } else {
                self.risk_map.fault() == Some(e)
            }),
    {
        match self.risk_map.validate() {
            Ok(()) => {},
            Err(e) => {
                return Err(e);
            },
        }
        if self.risk_map.contains(self.from) && self.risk_map.contains(self.to) {
            Ok(())
        } else {
            Err(ConfigError::Endpoint)
        }
    }

    /// Whether no path can cost more than the label range holds, computed.
    fn within_label_range(&self, alpha: Weight) -> (ok: bool)
        requires
            self.wf(),
        ensures
            ok == (self.label_bound(alpha) <= i128::MAX),
    {
        let peak: i32 = self.risk_map.max_risk();
        proof {
            self.risk_map.lemma_risk_of_cells_peak(Seq::empty());
            self.risk_map.lemma_code(self.from);
        }
        let cells: u128 = MAX_CELLS as u128;
        let rc: u128 = cells * (peak as u128);
        let n: u128 = (self.risk_map.width() as u128) * (self.risk_map.height() as u128);
        let ghost bound = self.label_bound(alpha);
        let ghost cap = self.cost_cap(alpha);
        proof {
            assert(n >= 1) by (nonlinear_arith)
                requires
                    n == self.risk_map.spec_width() * self.risk_map.spec_height(),
                    self.risk_map.spec_width() >= 1,
                    self.risk_map.spec_height() >= 1,
            ;
            assert(alpha.num * rc >= 0 && alpha.den * MAX_LENGTH >= 0) by (nonlinear_arith)
                requires
                    rc >= 0,
            ;
            assert(bound >= cap) by (nonlinear_arith)
                requires
                    bound == n * cap,
                    n >= 1,
                    cap >= 0,
            ;
        }
        let a: u128 = match alpha.num.checked_mul(rc) {
            Some(a) => a,
            None => {
                return false;
            },
        };
        let b: u128 = match alpha.den.checked_mul(MAX_LENGTH as u128) {
            Some(b) => b,
            None => {
                return false;
            },
        };
        let c: u128 = match a.checked_add(b) {
            Some(c) => c,
            None => {
                return false;
            },
        };
        let total: u128 = match n.checked_mul(c) {
            Some(total) => total,
            None => {
                return false;
            },
        };
        total <= i128::MAX as u128
    }

    /// The cheapest path from the origin to the destination under `alpha`.
    ///
    /// The search settles nodes in the order of their labels, relaxes the
    /// edges to the neighbours of each, keeps a label on a tie, and stops as
    /// soon as it settles the destination.
    #[verifier::rlimit(40)]
    pub fn run_with_alpha(&self, alpha: Weight) -> (found: Result<Path, SearchError>)
        requires
            self.wf(),
            alpha.wf(),
        ensures
            match found {
                Ok(path) => {
                    &&& self.path_ok(alpha, path)
                    &&& self.is_best_route(alpha, path.path@)
                    &&& self.each_once(path.path@)
                    &&& path.linear_combination_weight <= self.label_bound(alpha)
                    &&& path.path@.len() <= self.risk_map.node_count()
                    &&& path.risk <= (path.path@.len() - 1) * self.risk_cap()
                },
                Err(SearchError::NoPathFound) => forall|t: Seq<Coord<i16>>| !#[trigger] self.is_route(
                    t,
                ),
                Err(SearchError::Geometry(e)) => exists|u: Coord<i16>, v: Coord<i16>|
                    self.risk_map.in_domain(u) && #[trigger] self.adjacent(u, v)
                        && self.risk_map.spec_risk(u, v, self.r_m) == Err::<int, _>(e),
                Err(SearchError::Overflow) => self.label_bound(alpha) > i128::MAX,
                Err(SearchError::FrontierFull) => false,
            },
            self.label_bound(alpha) > i128::MAX ==> found matches Err(SearchError::Overflow),
            self.label_bound(alpha) <= i128::MAX && self.regular() && self.search_limit >= 1
                ==> found is Ok,
    {
        let ghost route = if self.search_limit >= 1 {
            self.lemma_trail_to(self.to)
        } else {
            Seq::empty()
        };
        if !self.within_label_range(alpha) {
            return Err(SearchError::Overflow);
        }
        let map = self.risk_map;
        let src: u64 = map.encode(self.from);
        let dst: u64 = map.encode(self.to);
        let mut table = table_new();
        let mut queue = queue_new();
        queue_push(&mut queue, src, 0);
        table_insert(&mut table, src, (0, src));
        let ghost mut settled: Set<int> = Set::empty();
        let ghost mut floor: int = 0;
        proof {
            map.lemma_code(self.from);
            map.lemma_code(self.to);
            assert(table_entries(table) =~= Map::<u64, (i128, u64)>::empty().insert(
                src,
                (0i128, src),
            ));
            assert(queue_entries(queue) =~= Map::<u64, i128>::empty().insert(src, 0i128));
            self.lemma_search_start(alpha, table_entries(table), queue_entries(queue));
        }
        loop
            invariant
                self.wf(),
                alpha.wf(),
                map == self.risk_map,
                self.label_bound(alpha) <= i128::MAX,
                src == self.source(),
                dst == map.code(self.to),
                self.search_inv(alpha, table_entries(table), queue_entries(queue), settled, floor),
                !settled.contains(dst as int),
                self.search_limit >= 1 ==> self.is_route(route),
            decreases map.node_count() - settled.len(),
        {
            let ghost labels = table_entries(table);
            let ghost queued = queue_entries(queue);
            let (u_code, priority) = match queue_pop(&mut queue) {
                Some(top) => top,
                None => {
                    proof {
                        self.lemma_no_route(alpha, labels, queued, settled, floor);
                    }
                    return Err(SearchError::NoPathFound);
                },
            };
            let ghost all = map.neighbours(map.decode(u_code as int), self.search_limit);
            if u_code == dst {
                proof {
                    self.lemma_route_found(alpha, labels, queued, settled, floor);
                }
                return self.unwrap_path(&table, alpha, Ghost(settled));
            }
            proof {
                self.lemma_search_pop(alpha, labels, queued, settled, floor, u_code, all);
            }
            let label: i128 = -priority;
            let u = map.node_at(u_code);
            proof {
                settled = settled.insert(u_code as int);
                floor = label as int;
            }
            let mut cursor = map.neighbours_within(u, self.search_limit);
            loop
                invariant
                    self.wf(),
                    alpha.wf(),
                    map == self.risk_map,
                    self.label_bound(alpha) <= i128::MAX,
                    self.valid_key(u_code),
                    u == map.decode(u_code as int),
                    all == map.neighbours(u, self.search_limit),
                    cursor.wf(),
                    cursor@.len() <= all.len(),
                    cursor@ == all.skip(all.len() - cursor@.len()),
                    label == table_entries(table)[u_code].0,
                    floor == label,
                    self.search_limit >= 1 ==> self.is_route(route),
                    self.relax_inv(
                        alpha,
                        table_entries(table),
                        queue_entries(queue),
                        settled,
                        u_code,
                        all,
                        all.len() - cursor@.len(),
                    ),
                ensures
                    self.search_inv(
                        alpha,
                        table_entries(table),
                        queue_entries(queue),
                        settled,
                        floor,
                    ),
                decreases cursor@.len(),
            {
                let ghost done = all.len() - cursor@.len();
                match cursor.next() {
                    Some(v) => {
                        proof {
                            assert(v == all[done]);
                            assert(cursor@ =~= all.skip(done + 1));
                        }
                        match self.relax(
                            alpha,
                            &mut table,
                            &mut queue,
                            u_code,
                            label,
                            v,
                            Ghost(settled),
                            Ghost(all),
                            Ghost(done),
                        ) {
                            Ok(()) => {},
                            Err(e) => {
                                return Err(SearchError::Geometry(e));
                            },
                        }
                    },
                    None => {
                        proof {
                            self.lemma_relax_done(
                                alpha,
                                table_entries(table),
                                queue_entries(queue),
                                settled,
                                u_code,
                                all,
                            );
                        }
                        break ;
                    },
                }
            }
        }
    }

    /// Relaxes the edge from the node `u` to its neighbour `v`: where the
    /// edge offers `v` a first label or a smaller one, `v` gets that label
    /// with `u` as its predecessor and is queued. Fails where the corridor
    /// of the edge cannot be rasterised.
    #[verifier::rlimit(40)]
    fn relax(
        &self,
        alpha: Weight,
        table: &mut NodeTable,
        queue: &mut priority_queue::PriorityQueue<u64, i128>,
        u_code: u64,
        label: i128,
        v: Coord<i16>,
        Ghost(settled): Ghost<Set<int>>,
        Ghost(all): Ghost<Seq<Coord<i16>>>,
        Ghost(done): Ghost<int>,
    ) -> (outcome: Result<(), GeometryError>)
        requires
            self.wf(),
            alpha.wf(),
            self.label_bound(alpha) <= i128::MAX,
            self.valid_key(u_code),
            all == self.risk_map.neighbours(
                self.risk_map.decode(u_code as int),
                self.search_limit,
            ),
            0 <= done < all.len(),
            v == all[done],
            label == table_entries(*old(table))[u_code].0,
            self.relax_inv(
                alpha,
                table_entries(*old(table)),
                queue_entries(*old(queue)),
                settled,
                u_code,
                all,
                done,
            ),
        ensures
            match outcome {
                Ok(()) => {
                    &&& self.relax_inv(
                        alpha,
                        table_entries(*final(table)),
                        queue_entries(*final(queue)),
                        settled,
                        u_code,
                        all,
                        done + 1,
                    )
                    &&& table_entries(*final(table))[u_code].0 == label
                },
                Err(e) => {
                    &&& self.adjacent(self.risk_map.decode(u_code as int), v)
                    &&& self.risk_map.spec_risk(
                        self.risk_map.decode(u_code as int),
                        v,
                        self.r_m,
                    ) == Err::<int, _>(e)
                },
            },
    {
        let map = self.risk_map;
        let u = map.node_at(u_code);
        let ghost labels = table_entries(*table);
        let ghost queued = queue_entries(*queue);
        proof {
            map.lemma_neighbour(u, self.search_limit, done);
            map.lemma_code(v);
            self.lemma_offer(alpha, labels, settled, u_code, v);
            self.lemma_relax_label(alpha, labels, queued, settled, u_code, all, done);
        }
        let risk: u64 = match map.risk(u, v, self.r_m) {
            Ok(risk) => risk,
            Err(e) => {
                return Err(e);
            },
        };
        let length: u64 = map.length_m(u, v);
        let offer: i128 = label + weigh(alpha, risk, length);
        let v_code: u64 = map.encode(v);
        let improves: bool = match table_get(table, v_code) {
            None => true,
            Some(known) => known.0 > offer,
        };
        if improves {
            table_insert(table, v_code, (offer, u_code));
            queue_push(queue, v_code, -offer);
            proof {
                self.lemma_relax_update(alpha, labels, queued, settled, u_code, all, done, offer);
            }
        } else {
            proof {
                self.lemma_relax_keep(alpha, labels, queued, settled, u_code, all, done);
            }
        }
        Ok(())
    }

    /// The path that the predecessors record from the destination back to
    /// the origin, with its risk and length summed anew edge by edge; no path
    /// where the destination has no label.
    #[verifier::rlimit(60)]
    fn unwrap_path(&self, table: &NodeTable, alpha: Weight, Ghost(settled): Ghost<Set<int>>) -> (found:
        Result<Path, SearchError>)
        requires
            self.wf(),
            alpha.wf(),
            self.tree_ok(alpha, table_entries(*table), settled),
            forall|s: int| #[trigger] settled.contains(s) ==> 0 <= s < self.risk_map.node_count(),
        ensures
            found is Ok <==> table_entries(*table).contains_key(
                self.risk_map.code(self.to) as u64,
            ),
            found matches Err(e) ==> e == SearchError::NoPathFound,
            found matches Ok(path) ==> {
                &&& self.path_ok(alpha, path)
                &&& self.follows_links(table_entries(*table), path.path@)
                &&& self.each_once(path.path@)
                &&& path.linear_combination_weight == table_entries(*table)[self.risk_map.code(
                    self.to,
                ) as u64].0
                &&& path.path@.len() <= self.risk_map.node_count()
                &&& path.risk <= (path.path@.len() - 1) * self.risk_cap()
            },
    {
        let map = self.risk_map;
        let ghost labels = table_entries(*table);
        let src: u64 = map.encode(self.from);
        let dst: u64 = map.encode(self.to);
        proof {
            map.lemma_code(self.from);
            map.lemma_code(self.to);
        }
        let label: i128 = match table_get(table, dst) {
            Some(entry) => entry.0,
            None => {
                return Err(SearchError::NoPathFound);
            },
        };
        let mut path: Vec<Coord<i16>> = Vec::new();
        let mut total_risk: u128 = 0;
        let mut total_length: u128 = 0;
        let mut node_code: u64 = dst;
        let mut node: Coord<i16> = self.to;
        let ghost mut seen: Set<int> = Set::empty();
        proof {
            assert(path@.push(node) =~= seq![node]);
            assert(alpha.num * 0 + alpha.den * 0 == 0) by (nonlinear_arith);
            assert(self.trail_cost(alpha, seq![node]) == 0);
            assert(0 * self.risk_cap() == 0) by (nonlinear_arith);
        }
        while node_code != src
            invariant
                self.wf(),
                alpha.wf(),
                map == self.risk_map,
                labels == table_entries(*table),
                self.tree_ok(alpha, labels, settled),
                forall|s: int| #[trigger] settled.contains(s) ==> 0 <= s < map.node_count(),
                src == self.source(),
                dst == map.code(self.to),
                labels.contains_key(node_code),
                labels.contains_key(dst),
                node == map.decode(node_code as int),
                seen.finite(),
                seen.len() == path@.len(),
                seen.len() <= map.node_count() <= 32767 * 32767,
                forall|s: int| #[trigger]
                    seen.contains(s) ==> 0 <= s < map.node_count() && labels.contains_key(s as u64)
                        && labels[s as u64].0 > labels[node_code].0,
                self.is_chain(path@.push(node)),
                self.follows_links(labels, path@.push(node)),
                self.descending(labels, path@.push(node)),
                path@.push(node)[0] == self.to,
                total_risk == self.trail_risk(path@.push(node)),
                total_length == self.trail_length(path@.push(node)),
                total_risk <= path@.len() * 9223372032559808512,
                total_risk <= path@.len() * self.risk_cap(),
                total_length <= path@.len() * 1_000_000_000_000_000_000,
                labels[dst].0 == self.trail_cost(alpha, path@.push(node)) + labels[node_code].0,
            decreases labels[node_code].0,
        {
            let ghost chain = path@.push(node);
            let ghost before = path@.len();
            path.push(node);
            let entry = table_get(table, node_code);
            let prev_code: u64 = match entry {
                Some(entry) => entry.1,
                None => node_code,
            };
            proof {
                self.lemma_unwrap_step(alpha, labels, settled, node_code, chain);
                lemma_seen_grows(seen, node_code as int, map.node_count());
                seen = seen.insert(node_code as int);
                assert((before + 1) * self.risk_cap() == before * self.risk_cap()
                    + self.risk_cap()) by (nonlinear_arith);
            }
            let prev = map.node_at(prev_code);
            let risk: u64 = match map.risk(prev, node, self.r_m) {
                Ok(risk) => risk,
                Err(_) => 0,
            };
            let length: u64 = map.length_m(prev, node);
            total_risk = total_risk + risk as u128;
            total_length = total_length + length as u128;
            node_code = prev_code;
            node = prev;
        }
        let ghost chain = path@.push(node);
        path.push(node);
        proof {
            assert(path@ == chain);
            assert(node == self.from);
            lemma_seen_grows(seen, node_code as int, map.node_count());
            self.lemma_descending_once(labels, chain);
        }
        Ok(
            Path {
                path,
                linear_combination_weight: label as u128,
                risk: total_risk,
                length_m: total_length,
                alpha,
            },
        )
    }
}

/// The cost of an edge with the given risk and length under a weight.
fn weigh(alpha: Weight, risk: u64, length: u64) -> (cost: i128)
    requires
        alpha.num * risk + alpha.den * length <= i128::MAX,
    ensures
        cost == alpha.num * risk + alpha.den * length,
{
    assert(0 <= alpha.num * risk && 0 <= alpha.den * length) by (nonlinear_arith);
    let weighted_risk: u128 = alpha.num * (risk as u128);
    let weighted_length: u128 = alpha.den * (length as u128);
    (weighted_risk + weighted_length) as i128
}

impl<'a> BicriteriaDijkstraInstance<'a> {
    /// No edge carries negative risk or more than the cap, and every edge has
    /// a length between one unit and the longest possible.
    pub proof fn lemma_edge_bounds(&self, u: Coord<i16>, v: Coord<i16>)
        requires
            self.risk_map.wf(),
        ensures
            0 <= self.edge_risk(u, v) <= self.risk_cap(),
            1 <= self.edge_length(u, v),
            0 <= self.risk_map.peak(),
    {
        let dx = u.x - v.x;
        let dy = u.y - v.y;
        let m = self.risk_map.m_per_pixel as int;
        assert((dx * dx + dy * dy) * (m * m) >= 0) by (nonlinear_arith);
        lemma_int_sqrt_exists((dx * dx + dy * dy) * (m * m));
        self.risk_map.lemma_risk_of_cells_peak(Seq::empty());
        match self.risk_map.spec_risk(u, v, self.r_m) {
            Ok(risk) => {
                let w = crate::corridor::half_width_px(self.r_m, self.risk_map.m_per_pixel);
                let shape = crate::corridor::corridor(u, v, w);
                self.risk_map.lemma_risk_of_cells_peak(shape.cells());
                shape.quad().lemma_cells_len();
                assert(shape.cells().len() * self.risk_map.peak() <= MAX_CELLS
                    * self.risk_map.peak()) by (nonlinear_arith)
                    requires
                        shape.cells().len() <= MAX_CELLS,
                        self.risk_map.peak() >= 0,
                ;
            },
            Err(_) => {
                assert(MAX_CELLS * self.risk_map.peak() >= 0) by (nonlinear_arith)
                    requires
                        self.risk_map.peak() >= 0,
                ;
            },
        }
    }

    /// Under a valid weight every edge costs at least one, and at most the cap.
    pub proof fn lemma_edge_cost_bounds(&self, alpha: Weight, u: Coord<i16>, v: Coord<i16>)
        requires
            self.risk_map.wf(),
            alpha.wf(),
            self.edge_length(u, v) <= MAX_LENGTH,
        ensures
            1 <= self.edge_cost(alpha, u, v) <= self.cost_cap(alpha),
            alpha.num * self.edge_risk(u, v) <= alpha.num * self.risk_cap(),
            alpha.den * self.edge_length(u, v) <= alpha.den * MAX_LENGTH,
            0 <= alpha.num * self.edge_risk(u, v),
    {
        self.lemma_edge_bounds(u, v);
        let r = self.edge_risk(u, v);
        let l = self.edge_length(u, v);
        let n = alpha.num as int;
        let d = alpha.den as int;
        assert(0 <= n * r <= n * self.risk_cap()) by (nonlinear_arith)
            requires
                0 <= n,
                0 <= r <= self.risk_cap(),
        ;
        assert(1 <= d * l <= d * MAX_LENGTH) by (nonlinear_arith)
            requires
                1 <= d,
                1 <= l <= MAX_LENGTH,
        ;
    }

    /// A path that gains a cell at its origin end gains the edge from that
    /// cell to what was its last.
    pub proof fn lemma_chain_push(&self, t: Seq<Coord<i16>>, u: Coord<i16>)
        requires
            t.len() >= 1,
            self.is_chain(t),
            self.adjacent(u, t.last()),
        ensures
            self.is_chain(t.push(u)),
            self.trail_risk(t.push(u)) == self.trail_risk(t) + self.edge_risk(u, t.last()),
            self.trail_length(t.push(u)) == self.trail_length(t) + self.edge_length(u, t.last()),
        decreases t.len(),
    {
        let e = t.push(u);
        if t.len() == 1 {
            assert(e.drop_first() =~= seq![u]);
            assert(self.is_chain(e.drop_first()));
            assert(self.trail_risk(e.drop_first()) == 0);
            assert(self.trail_length(e.drop_first()) == 0);
        } else {
            assert(e.drop_first() =~= t.drop_first().push(u));
            self.lemma_chain_push(t.drop_first(), u);
        }
    }

    /// The first cell of a path from the origin is a valid cell.
    pub proof fn lemma_trail_head_valid(&self, t: Seq<Coord<i16>>)
        requires
            self.wf(),
            self.is_trail(t),
        ensures
            self.risk_map.in_domain(t[0]),
    {
        if t.len() > 1 {
            let s = self.risk_map.neighbours(t[1], self.search_limit);
            let i = choose|i: int| 0 <= i < s.len() && s[i] == t[0];
            self.risk_map.lemma_neighbour(t[1], self.search_limit, i);
        }
    }

    /// There is an edge from `u` to `v` exactly when `v` is a valid cell
    /// other than `u`, no more than the search limit from it along each axis.
    pub proof fn lemma_adjacent(&self, u: Coord<i16>, v: Coord<i16>)
        requires
            self.risk_map.rectangular(),
            self.risk_map.margin_ok(),
        ensures
            self.adjacent(u, v) <==> {
                &&& self.risk_map.in_domain(v)
                &&& v != u
                &&& u.x - self.search_limit <= v.x <= u.x + self.search_limit
                &&& u.y - self.search_limit <= v.y <= u.y + self.search_limit
            },
    {
        if self.adjacent(u, v) {
            let s = self.risk_map.neighbours(u, self.search_limit);
            let i = choose|i: int| 0 <= i < s.len() && s[i] == v;
            self.risk_map.lemma_neighbour(u, self.search_limit, i);
        } else if self.risk_map.in_domain(v) && v != u && u.x - self.search_limit <= v.x <= u.x
            + self.search_limit && u.y - self.search_limit <= v.y <= u.y + self.search_limit {
            self.risk_map.lemma_is_neighbour(u, self.search_limit, v);
        }
    }

    /// Where a step may reach the next cell, a path leads from the origin to
    /// every valid cell.
    pub proof fn lemma_trail_to(&self, target: Coord<i16>) -> (t: Seq<Coord<i16>>)
        requires
            self.wf(),
            self.search_limit >= 1,
            self.risk_map.in_domain(target),
        ensures
            self.is_trail(t),
            t[0] == target,
        decreases
                (if target.x >= self.from.x {
                    target.x - self.from.x
                } else {
                    self.from.x - target.x
                }) + (if target.y >= self.from.y {
                    target.y - self.from.y
                } else {
                    self.from.y - target.y
                }),
    {
        if target == self.from {
            seq![target]
        } else {
            let x = if target.x > self.from.x {
                target.x - 1
            } else if target.x < self.from.x {
                target.x + 1
            } else {
                target.x as int
            };
            let y = if target.y > self.from.y {
                target.y - 1
            } else if target.y < self.from.y {
                target.y + 1
            } else {
                target.y as int
            };
            let before = Coord { x: x as i16, y: y as i16 };
            let rest = self.lemma_trail_to(before);
            self.lemma_adjacent(before, target);
            let t = seq![target] + rest;
            assert(t.drop_first() =~= rest);
            assert(t.last() == rest.last());
            t
        }
    }

    /// Where a step may reach the next cell, the destination can be reached.
    pub proof fn lemma_route_exists(&self)
        requires
            self.wf(),
            self.search_limit >= 1,
        ensures
            exists|t: Seq<Coord<i16>>| self.is_route(t),
    {
        let t = self.lemma_trail_to(self.to);
        assert(self.is_route(t));
    }

    /// A cheapest path under a weight that counts no risk is a shortest path.
    pub proof fn lemma_weightless_is_shortest(
        &self,
        alpha: Weight,
        path: Seq<Coord<i16>>,
        other: Seq<Coord<i16>>,
    )
        requires
            alpha.wf(),
            alpha.num == 0,
            self.is_best_route(alpha, path),
            self.is_route(other),
        ensures
            self.trail_length(path) <= self.trail_length(other),
    {
        let d = alpha.den as int;
        let l0 = self.trail_length(path);
        let l1 = self.trail_length(other);
        assert(self.trail_cost(alpha, path) <= self.trail_cost(alpha, other));
        assert(l0 <= l1) by (nonlinear_arith)
            requires
                0 * self.trail_risk(path) + d * l0 <= 0 * self.trail_risk(other) + d * l1,
                d >= 1,
        ;
    }

    /// A cheapest path under a weight has no more risk than any path that
    /// is longer by less than a unit of risk counts.
    pub proof fn lemma_heavy_is_safest(
        &self,
        alpha: Weight,
        path: Seq<Coord<i16>>,
        other: Seq<Coord<i16>>,
    )
        requires
            alpha.wf(),
            self.is_best_route(alpha, path),
            self.is_route(other),
            alpha.den * (self.trail_length(other) - self.trail_length(path)) < alpha.num,
        ensures
            self.trail_risk(path) <= self.trail_risk(other),
    {
        let n = alpha.num as int;
        let d = alpha.den as int;
        let r0 = self.trail_risk(path);
        let r1 = self.trail_risk(other);
        let l0 = self.trail_length(path);
        let l1 = self.trail_length(other);
        assert(self.trail_cost(alpha, path) <= self.trail_cost(alpha, other));
        assert(r0 <= r1) by (nonlinear_arith)
            requires
                n * r0 + d * l0 <= n * r1 + d * l1,
                d * (l1 - l0) < n,
                n >= 0,
        ;
    }

    /// A cheapest path under a weight costs, under that weight, no more than
    /// a shortest path and no more than a safest path.
    pub proof fn lemma_best_beats_extremes(
        &self,
        alpha: Weight,
        path: Seq<Coord<i16>>,
        short: Seq<Coord<i16>>,
        safe: Seq<Coord<i16>>,
    )
        requires
            self.is_best_route(alpha, path),
            self.is_route(short),
            self.is_route(safe),
        ensures
            self.trail_cost(alpha, path) <= self.trail_cost(alpha, short),
            self.trail_cost(alpha, path) <= self.trail_cost(alpha, safe),
    {
    }
}

} // verus!
