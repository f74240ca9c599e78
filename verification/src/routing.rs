//! The routing engine: single-source shortest paths by repeated edge
//! relaxation, route reconstruction over the predecessor array, and
//! capacity-bounded reachability.
//!
//! Weights are unsigned, so no negative cycle can exist and relaxation
//! reaches a fixed point; the relaxation loop therefore terminates
//! (this is proved, via a strictly decreasing sum of distances) and
//! its result is exactly the cheapest walk cost for every node.

use vstd::prelude::*;

use crate::model::{
    first_id_index, has_node_id, Edge, Graph, Node, MAX_LAT_MICRO, MAX_LON_MICRO,
};
use crate::spatial::is_first_nearest;
use crate::walks::{is_walk, min_cost, walk_cost};
use crate::INFINITE_COST;

verus! {

/// Every edge is relaxed: no edge can improve its target's distance
/// (sums that overflow the cost range count as no improvement).
spec fn relaxed(edges: Seq<Edge>, dist: Seq<u64>) -> bool {
    forall|k: int|
        0 <= k < edges.len() ==> {
            let e = #[trigger] edges[k];
            dist[e.source as int] as int + e.weight >= INFINITE_COST || dist[e.target as int]
                as int <= dist[e.source as int] as int + e.weight
        }
}

/// `relaxed`, restricted to the first `upto` edges.
spec fn relaxed_upto(edges: Seq<Edge>, dist: Seq<u64>, upto: int) -> bool {
    forall|k: int|
        0 <= k < upto ==> {
            let e = #[trigger] edges[k];
            dist[e.source as int] as int + e.weight >= INFINITE_COST || dist[e.target as int]
                as int <= dist[e.source as int] as int + e.weight
        }
}

/// Every reached node other than the source has a predecessor that is
/// reached, linked to it by an edge that exactly accounts for its
/// distance.
pub open spec fn pred_links(
    edges: Seq<Edge>,
    source: int,
    pred: Seq<usize>,
    dist: Seq<u64>,
) -> bool {
    forall|v: int|
        0 <= v < dist.len() && v != source && #[trigger] dist[v] < INFINITE_COST ==> {
            &&& (pred[v] as int) < dist.len()
            &&& dist[pred[v] as int] < INFINITE_COST
            &&& exists|k: int|
                {
                    &&& 0 <= k < edges.len()
                    &&& (#[trigger] edges[k]).source == pred[v]
                    &&& edges[k].target as int == v
                    &&& dist[pred[v] as int] as int + edges[k].weight == dist[v] as int
                }
        }
}

/// A ranking that strictly decreases along predecessor links, so
/// following predecessors from any reached node terminates at the
/// source.
pub open spec fn pred_ranked(
    source: int,
    pred: Seq<usize>,
    dist: Seq<u64>,
    rank: Seq<int>,
) -> bool {
    &&& rank.len() == dist.len()
    &&& forall|v: int| 0 <= v < rank.len() ==> 0 <= #[trigger] rank[v]
    &&& forall|v: int|
        0 <= v < dist.len() && v != source && #[trigger] dist[v] < INFINITE_COST ==> rank[pred[v]
            as int] < rank[v]
}

/// Internal invariant: every reached node's distance is realized by a
/// recorded witness walk from the source.
spec fn wit_ok(edges: Seq<Edge>, source: int, dist: Seq<u64>, wit: Map<int, Seq<int>>) -> bool {
    forall|v: int|
        0 <= v < dist.len() && #[trigger] dist[v] < INFINITE_COST ==> wit.dom().contains(v)
            && is_walk(edges, source, v, wit[v]) && walk_cost(edges, wit[v]) == dist[v]
}

/// Internal invariant: one predecessor link of the relaxation loop.
/// The link's weight accounts for at least the distance gap, and the
/// link is either strictly slack or points to a node whose distance
/// was set earlier (smaller stamp).
spec fn links_at(
    edges: Seq<Edge>,
    pred: Seq<usize>,
    dist: Seq<u64>,
    stamp: Seq<int>,
    v: int,
    k: int,
) -> bool {
    &&& 0 <= k < edges.len()
    &&& edges[k].source == pred[v]
    &&& edges[k].target as int == v
    &&& dist[pred[v] as int] as int + edges[k].weight <= dist[v] as int
    &&& (dist[pred[v] as int] as int + edges[k].weight < dist[v] as int || stamp[pred[v] as int]
        < stamp[v])
}

/// Internal invariant: all predecessor links are sound.
spec fn links_ok(
    edges: Seq<Edge>,
    source: int,
    pred: Seq<usize>,
    dist: Seq<u64>,
    stamp: Seq<int>,
) -> bool {
    forall|v: int|
        0 <= v < dist.len() && v != source && #[trigger] dist[v] < INFINITE_COST ==> {
            &&& (pred[v] as int) < dist.len()
            &&& dist[pred[v] as int] < INFINITE_COST
            &&& exists|k: int| links_at(edges, pred, dist, stamp, v, k)
        }
}

/// Internal invariant of the relaxation loops.
spec fn bf_inv(
    edges: Seq<Edge>,
    source: int,
    pred: Seq<usize>,
    dist: Seq<u64>,
    wit: Map<int, Seq<int>>,
    stamp: Seq<int>,
    clock: int,
) -> bool {
    &&& pred.len() == dist.len()
    &&& stamp.len() == dist.len()
    &&& 0 <= source < dist.len()
    &&& dist[source] == 0
    &&& forall|v: int| 0 <= v < stamp.len() ==> 0 <= #[trigger] stamp[v] < clock
    &&& forall|v: int| 0 <= v < pred.len() ==> (#[trigger] pred[v] as int) < dist.len()
    &&& wit_ok(edges, source, dist, wit)
    &&& links_ok(edges, source, pred, dist, stamp)
}

/// The dense node indices a walk visits, in order: the start node,
/// then the target of each edge.
pub open spec fn walk_nodes(edges: Seq<Edge>, s: int, w: Seq<int>) -> Seq<int> {
    seq![s] + w.map_values(|k: int| edges[k].target as int)
}

/// The coordinates of a sequence of dense node indices.
pub open spec fn coords_of(nodes: Seq<Node>, vs: Seq<int>) -> Seq<(i64, i64)> {
    vs.map_values(|v: int| (nodes[v].lon, nodes[v].lat))
}

/// The reachability result over the first `upto` nodes: for every
/// node whose distance fits the capacity, its coordinates and the
/// remaining capacity, in dense-index order.
pub open spec fn reach_seq(nodes: Seq<Node>, ds: Seq<u64>, cap: u64, upto: int) -> Seq<
    (i64, i64, u64),
>
    decreases upto,
{
    if upto <= 0 {
        Seq::empty()
    } else {
        reach_seq(nodes, ds, cap, upto - 1) + (if ds[upto - 1] <= cap {
            seq![(nodes[upto - 1].lon, nodes[upto - 1].lat, (cap - ds[upto - 1]) as u64)]
        } else {
            Seq::empty()
        })
    }
}

/// The reachability entry a node contributes: its coordinates and
/// the remaining budget.
pub open spec fn reach_entry(nodes: Seq<Node>, ds: Seq<u64>, cap: u64, v: int) -> (i64, i64, u64) {
    (nodes[v].lon, nodes[v].lat, (cap - ds[v]) as u64)
}

/// Every node within budget appears in the reachability result.
pub open spec fn reach_complete(nodes: Seq<Node>, ds: Seq<u64>, cap: u64, upto: int) -> bool {
    forall|v: int|
        0 <= v < upto && #[trigger] ds[v] <= cap ==> exists|j: int|
            0 <= j < reach_seq(nodes, ds, cap, upto).len() && #[trigger] reach_seq(
                nodes,
                ds,
                cap,
                upto,
            )[j] == reach_entry(nodes, ds, cap, v)
}

/// The `j`-th entry of the reachability result is contributed by
/// some node within budget.
pub open spec fn entry_from_node(nodes: Seq<Node>, ds: Seq<u64>, cap: u64, upto: int, j: int) -> bool {
    exists|v: int|
        0 <= v < upto && ds[v] <= cap && reach_seq(nodes, ds, cap, upto)[j]
            == #[trigger] reach_entry(nodes, ds, cap, v)
}

/// Every entry of the reachability result comes from a node within
/// budget.
pub open spec fn reach_sound(nodes: Seq<Node>, ds: Seq<u64>, cap: u64, upto: int) -> bool {
    forall|j: int|
        0 <= j < reach_seq(nodes, ds, cap, upto).len() ==> #[trigger] entry_from_node(
            nodes,
            ds,
            cap,
            upto,
            j,
        )
}

/// Reachability containment: every node whose distance fits the
/// budget appears in the reachability result with its remaining
/// budget, and every entry of the result comes from such a node —
/// nodes beyond the budget, or unreached ones, contribute nothing.
pub proof fn lemma_reach_seq_characterizes(nodes: Seq<Node>, ds: Seq<u64>, cap: u64, upto: int)
    requires
        ds.len() == nodes.len(),
        0 <= upto <= nodes.len(),
    ensures
        reach_complete(nodes, ds, cap, upto),
        reach_sound(nodes, ds, cap, upto),
    decreases upto,
{
    if upto > 0 {
        lemma_reach_seq_characterizes(nodes, ds, cap, upto - 1);
        let prev = reach_seq(nodes, ds, cap, upto - 1);
        let cur = reach_seq(nodes, ds, cap, upto);
        assert forall|v: int| 0 <= v < upto && #[trigger] ds[v] <= cap implies exists|j: int|
            0 <= j < reach_seq(nodes, ds, cap, upto).len() && #[trigger] reach_seq(
                nodes,
                ds,
                cap,
                upto,
            )[j] == reach_entry(nodes, ds, cap, v) by {
            if v < upto - 1 {
                let j = choose|j: int|
                    0 <= j < prev.len() && #[trigger] prev[j] == reach_entry(nodes, ds, cap, v);
                assert(cur[j] == prev[j]);
                assert(cur[j] == reach_entry(nodes, ds, cap, v));
            } else {
                assert(cur[prev.len() as int] == reach_entry(nodes, ds, cap, v));
            }
        }
        assert forall|j: int|
            0 <= j < reach_seq(nodes, ds, cap, upto).len() implies #[trigger] entry_from_node(
            nodes,
            ds,
            cap,
            upto,
            j,
        ) by {
            if j < prev.len() {
                assert(entry_from_node(nodes, ds, cap, upto - 1, j));
                let v = choose|v: int|
                    0 <= v < upto - 1 && ds[v] <= cap && reach_seq(nodes, ds, cap, upto - 1)[j]
                        == #[trigger] reach_entry(nodes, ds, cap, v);
                assert(cur[j] == prev[j]);
                assert(0 <= v < upto && ds[v] <= cap && reach_seq(nodes, ds, cap, upto)[j]
                    == reach_entry(nodes, ds, cap, v));
            } else {
                assert(ds[upto - 1] <= cap);
                assert(0 <= upto - 1 < upto && ds[upto - 1] <= cap && reach_seq(
                    nodes,
                    ds,
                    cap,
                    upto,
                )[j] == reach_entry(nodes, ds, cap, upto - 1));
            }
        }
    } else {
        assert(reach_seq(nodes, ds, cap, upto).len() == 0);
    }
}

/// The sum of all distances, used as the termination measure of the
/// relaxation loop.
spec fn sum_dist(dist: Seq<u64>) -> int
    decreases dist.len(),
{
    if dist.len() == 0 {
        0
    } else {
        sum_dist(dist.drop_last()) + dist.last()
    }
}

proof fn lemma_sum_dist_nonneg(dist: Seq<u64>)
    ensures
        sum_dist(dist) >= 0,
    decreases dist.len(),
{
    if dist.len() > 0 {
        lemma_sum_dist_nonneg(dist.drop_last());
    }
}

/// Lowering one entry lowers the sum.
proof fn lemma_sum_dist_update(dist: Seq<u64>, i: int, v: u64)
    requires
        0 <= i < dist.len(),
        v < dist[i],
    ensures
        sum_dist(dist.update(i, v)) < sum_dist(dist),
    decreases dist.len(),
{
    let u = dist.update(i, v);
    if i == dist.len() - 1 {
        assert(u.drop_last() =~= dist.drop_last());
        assert(u.last() == v);
    } else {
        assert(u.drop_last() =~= dist.drop_last().update(i, v));
        assert(u.last() == dist.last());
        lemma_sum_dist_update(dist.drop_last(), i, v);
    }
}

impl Graph {
    /// Single-source shortest paths by repeated edge relaxation.
    /// Returns the predecessor array and the distance array: the
    /// distance of every node is exactly the cheapest walk cost from
    /// `source`, with `INFINITE_COST` for unreached nodes. Weights
    /// are unsigned, so no negative cycle exists, relaxation reaches
    /// a fixed point, and termination needs no pass cap: the sum of
    /// distances strictly decreases with every improving pass.
    #[verifier::rlimit(100)]
    #[verifier::spinoff_prover]
    pub fn bellman(&self, source: usize) -> (r: (Vec<usize>, Vec<u64>))
        requires
            self.wf(),
            (source as int) < self.nodes@.len(),
        ensures
            r.0@.len() == self.nodes@.len(),
            r.1@.len() == self.nodes@.len(),
            r.1@[source as int] == 0,
            forall|v: int|
                0 <= v < r.1@.len() ==> min_cost(
                    self.edges@,
                    source as int,
                    v,
                    #[trigger] r.1@[v] as int,
                ),
            pred_links(self.edges@, source as int, r.0@, r.1@),
            exists|rank: Seq<int>| pred_ranked(source as int, r.0@, r.1@, rank),
    {
        let n = self.nodes.len();
        let m = self.edges.len();
        let ghost edges = self.edges@;
        let ghost src = source as int;

        let mut pred: Vec<usize> = Vec::new();
        let mut i: usize = 0;
        while i < n
            invariant
                0 <= i <= n,
                pred@.len() == i,
                forall|j: int| 0 <= j < i ==> (#[trigger] pred@[j]) == j,
            decreases n - i,
        {
            pred.push(i);
            i = i + 1;
        }

        let mut dist: Vec<u64> = Vec::new();
        let mut i2: usize = 0;
        while i2 < n
            invariant
                0 <= i2 <= n,
                dist@.len() == i2,
                forall|j: int| 0 <= j < i2 ==> (#[trigger] dist@[j]) == u64::MAX,
            decreases n - i2,
        {
            dist.push(u64::MAX);
            i2 = i2 + 1;
        }
        dist[source] = 0;

        let ghost mut wit: Map<int, Seq<int>> = Map::empty().insert(src, Seq::<int>::empty());
        let ghost mut stamp: Seq<int> = Seq::new(n as nat, |v: int| 0);
        let ghost mut clock: int = 1;
        proof {
            assert(is_walk(edges, src, src, Seq::<int>::empty()));
            assert(walk_cost(edges, Seq::<int>::empty()) == 0);
            assert(bf_inv(edges, src, pred@, dist@, wit, stamp, clock));
        }

        let mut improvement = true;
        while improvement
            invariant
                self.wf(),
                edges == self.edges@,
                0 <= src < dist@.len(),
                src == source as int,
                m == edges.len(),
                dist@.len() == self.nodes@.len(),
                bf_inv(edges, src, pred@, dist@, wit, stamp, clock),
                !improvement ==> relaxed(edges, dist@),
            decreases sum_dist(dist@), (if improvement { 1int } else { 0int }),
        {
            improvement = false;
            let ghost dist0 = dist@;
            let mut k: usize = 0;
            while k < m
                invariant
                    self.wf(),
                    edges == self.edges@,
                    0 <= src < dist@.len(),
                    src == source as int,
                    m == edges.len(),
                    0 <= k <= m,
                    dist@.len() == self.nodes@.len(),
                    bf_inv(edges, src, pred@, dist@, wit, stamp, clock),
                    sum_dist(dist@) <= sum_dist(dist0),
                    improvement ==> sum_dist(dist@) < sum_dist(dist0),
                    !improvement ==> dist@ == dist0 && relaxed_upto(edges, dist@, k as int),
                decreases m - k,
            {
                let es = self.edges[k].source;
                let et = self.edges[k].target;
                let w = self.edges[k].weight;
                proof {
                    assert(edges[k as int].source < dist@.len() && edges[k as int].target
                        < dist@.len());
                }
                let ds = dist[es];
                if ds != u64::MAX {
                    match ds.checked_add(w) {
                        Some(c) => {
                            if c < dist[et] {
                                let ghost old_dist = dist@;
                                let ghost old_pred = pred@;
                                let ghost old_stamp = stamp;
                                let ghost old_wit = wit;
                                dist[et] = c;
                                pred[et] = es;
                                proof {
                                    let esi = es as int;
                                    let eti = et as int;
                                    assert(es != et);
                                    assert(dist@ =~= old_dist.update(eti, c));
                                    assert(pred@ =~= old_pred.update(eti, es));
                                    wit = wit.insert(eti, old_wit[esi].push(k as int));
                                    stamp = stamp.update(eti, clock);
                                    clock = clock + 1;
                                    lemma_sum_dist_update(old_dist, eti, c);

                                    assert(is_walk(edges, src, esi, old_wit[esi]) && walk_cost(
                                        edges,
                                        old_wit[esi],
                                    ) == old_dist[esi]);
                                    crate::walks::lemma_walk_push(
                                        edges,
                                        src,
                                        esi,
                                        old_wit[esi],
                                        k as int,
                                    );
                                    assert forall|v: int|
                                        0 <= v < dist@.len() && #[trigger] dist@[v]
                                            < INFINITE_COST implies wit.dom().contains(v)
                                        && is_walk(edges, src, v, wit[v]) && walk_cost(
                                        edges,
                                        wit[v],
                                    ) == dist@[v] by {
                                        if v != eti {
                                            assert(dist@[v] == old_dist[v]);
                                            assert(wit[v] == old_wit[v]);
                                        }
                                    }
                                    assert(wit_ok(edges, src, dist@, wit));

                                    assert forall|v: int|
                                        0 <= v < dist@.len() && v != src && #[trigger] dist@[v]
                                            < INFINITE_COST implies {
                                        &&& (pred@[v] as int) < dist@.len()
                                        &&& dist@[pred@[v] as int] < INFINITE_COST
                                        &&& exists|kk: int|
                                            links_at(edges, pred@, dist@, stamp, v, kk)
                                    } by {
                                        if v == eti {
                                            assert(links_at(
                                                edges,
                                                pred@,
                                                dist@,
                                                stamp,
                                                v,
                                                k as int,
                                            ));
                                        } else {
                                            assert(old_dist[v] < INFINITE_COST);
                                            let kk = choose|kk: int|
                                                links_at(
                                                    edges,
                                                    old_pred,
                                                    old_dist,
                                                    old_stamp,
                                                    v,
                                                    kk,
                                                );
                                            assert(links_at(edges, pred@, dist@, stamp, v, kk));
                                        }
                                    }
                                    assert(links_ok(edges, src, pred@, dist@, stamp));
                                    assert(bf_inv(edges, src, pred@, dist@, wit, stamp, clock));
                                }
                                improvement = true;
                            }
                        },
                        None => {},
                    }
                }
                k = k + 1;
            }
            proof {
                lemma_sum_dist_nonneg(dist@);
            }
        }

        proof {
            assert forall|v: int|
                0 <= v < dist@.len() implies min_cost(edges, src, v, #[trigger] dist@[v] as int) by {
                if dist@[v] < INFINITE_COST {
                    assert(is_walk(edges, src, v, wit[v]) && walk_cost(edges, wit[v]) == dist@[v]
                        as int);
                }
                assert forall|w: Seq<int>|
                    #[trigger] is_walk(edges, src, v, w) && walk_cost(edges, w)
                        < INFINITE_COST implies dist@[v] as int <= walk_cost(edges, w) by {
                    lemma_relaxed_lower_bound(edges, dist@, src, v, w);
                }
            }
            assert forall|v: int|
                0 <= v < dist@.len() && v != src && #[trigger] dist@[v] < INFINITE_COST implies {
                &&& (pred@[v] as int) < dist@.len()
                &&& dist@[pred@[v] as int] < INFINITE_COST
                &&& exists|kk: int|
                    {
                        &&& 0 <= kk < edges.len()
                        &&& (#[trigger] edges[kk]).source == pred@[v]
                        &&& edges[kk].target as int == v
                        &&& dist@[pred@[v] as int] as int + edges[kk].weight == dist@[v] as int
                    }
                &&& stamp[pred@[v] as int] < stamp[v]
            } by {
                let kk = choose|kk: int| links_at(edges, pred@, dist@, stamp, v, kk);
                assert(links_at(edges, pred@, dist@, stamp, v, kk));
                let e = edges[kk];
                assert(dist@[e.target as int] as int <= dist@[e.source as int] as int + e.weight
                    || dist@[e.source as int] as int + e.weight >= INFINITE_COST);
                assert(dist@[pred@[v] as int] as int + edges[kk].weight == dist@[v] as int);
            }
            assert(pred_ranked(src, pred@, dist@, stamp));
            assert(pred_links(edges, src, pred@, dist@));
        }
        (pred, dist)
    }
}

impl Graph {
    /// Resolves an external identifier to its dense index: the first
    /// node carrying that identifier, or `None` when no node does.
    pub fn get_id_from_osm(&self, osm_id: i64) -> (r: Option<usize>)
        ensures
            match r {
                Some(i) => has_node_id(self.nodes@, osm_id) && i as int == first_id_index(
                    self.nodes@,
                    osm_id,
                ) && i < self.nodes@.len(),
                None => !has_node_id(self.nodes@, osm_id),
            },
    {
        crate::model::find_node_index(&self.nodes, osm_id)
    }

    /// The coordinates of a node, by dense index.
    pub fn get_loc_from_id(&self, id: usize) -> (r: (i64, i64))
        requires
            (id as int) < self.nodes@.len(),
        ensures
            r == (self.nodes@[id as int].lon, self.nodes@[id as int].lat),
    {
        (self.nodes[id].lon, self.nodes[id].lat)
    }

    /// Resolves a coordinate to the external identifier of the
    /// nearest node, ties going to the node inserted first (lowest
    /// dense index). Fails exactly on an empty graph or a coordinate
    /// outside the physical range.
    pub fn get_id_from_lon_lat(&self, lon: i64, lat: i64) -> (r: Option<i64>)
        requires
            self.wf(),
        ensures
            match r {
                Some(id) => exists|i: int|
                    #[trigger] is_first_nearest(self.index.points@, lon as int, lat as int, i)
                        && id == self.nodes@[i].id,
                None => self.nodes@.len() == 0 || !(-MAX_LON_MICRO <= lon <= MAX_LON_MICRO
                    && -MAX_LAT_MICRO <= lat <= MAX_LAT_MICRO),
            },
            (self.nodes@.len() > 0 && -MAX_LON_MICRO <= lon <= MAX_LON_MICRO && -MAX_LAT_MICRO
                <= lat <= MAX_LAT_MICRO) ==> r is Some,
    {
        if lon < -MAX_LON_MICRO || lon > MAX_LON_MICRO || lat < -MAX_LAT_MICRO || lat
            > MAX_LAT_MICRO {
            return None;
        }
        match self.index.nearest(lon, lat) {
            None => None,
            Some(i) => Some(self.nodes[i].id),
        }
    }

    /// Computes a route between two external identifiers: the
    /// polyline of the cheapest walk, in source-to-target order, and
    /// its exact cost. An unreached target yields `INFINITE_COST`
    /// and the degenerate two-point polyline; an unknown identifier
    /// yields `None`.
    pub fn route(&self, source: i64, target: i64) -> (r: Option<(Vec<(i64, i64)>, u64)>)
        requires
            self.wf(),
        ensures
            match r {
                None => !has_node_id(self.nodes@, source) || !has_node_id(self.nodes@, target),
                Some(rt) => {
                    let s = first_id_index(self.nodes@, source);
                    let t = first_id_index(self.nodes@, target);
                    &&& has_node_id(self.nodes@, source)
                    &&& has_node_id(self.nodes@, target)
                    &&& min_cost(self.edges@, s, t, rt.1 as int)
                    &&& rt.0@.len() >= 1
                    &&& rt.0@[0] == (self.nodes@[s].lon, self.nodes@[s].lat)
                    &&& rt.0@[rt.0@.len() - 1] == (self.nodes@[t].lon, self.nodes@[t].lat)
                    &&& (s == t ==> rt.0@.len() == 1 && rt.1 == 0)
                    &&& (rt.1 < INFINITE_COST ==> exists|w: Seq<int>|
                        #[trigger] is_walk(self.edges@, s, t, w) && walk_cost(self.edges@, w)
                            == rt.1 as int && rt.0@ == coords_of(
                            self.nodes@,
                            walk_nodes(self.edges@, s, w),
                        ))
                    &&& (rt.1 == INFINITE_COST ==> rt.0@ == seq![
                        (self.nodes@[s].lon, self.nodes@[s].lat),
                        (self.nodes@[t].lon, self.nodes@[t].lat),
                    ])
                },
            },
    {
        let n = self.nodes.len();
        let ghost edges = self.edges@;
        let s = match self.get_id_from_osm(source) {
            None => { return None; },
            Some(s) => s,
        };
        let t = match self.get_id_from_osm(target) {
            None => { return None; },
            Some(t) => t,
        };
        let (pred, dist) = self.bellman(s);
        let cost = dist[t];
        if cost == u64::MAX {
            proof {
                if s == t {
                    crate::walks::lemma_min_cost_self(edges, s as int);
                    crate::walks::lemma_min_cost_unique(
                        edges,
                        s as int,
                        t as int,
                        0,
                        cost as int,
                    );
                }
            }
            let sloc = self.get_loc_from_id(s);
            let tloc = self.get_loc_from_id(t);
            let mut trace: Vec<(i64, i64)> = Vec::new();
            trace.push(sloc);
            trace.push(tloc);
            proof {
                assert(trace@ =~= seq![
                    (self.nodes@[s as int].lon, self.nodes@[s as int].lat),
                    (self.nodes@[t as int].lon, self.nodes@[t as int].lat),
                ]);
            }
            return Some((trace, cost));
        }

        let ghost rank = choose|rank: Seq<int>| pred_ranked(s as int, pred@, dist@, rank);
        let mut rev: Vec<usize> = Vec::new();
        rev.push(t);
        let mut current: usize = t;
        let ghost mut ws: Seq<int> = Seq::empty();
        proof {
            assert(walk_nodes(edges, t as int, ws) =~= seq![t as int]);
        }
        while current != s
            invariant
                self.wf(),
                edges == self.edges@,
                n == self.nodes@.len(),
                (s as int) < n,
                (t as int) < n,
                dist@.len() == n,
                pred@.len() == n,
                dist@[s as int] == 0,
                pred_links(edges, s as int, pred@, dist@),
                pred_ranked(s as int, pred@, dist@, rank),
                (current as int) < n,
                dist@[current as int] < INFINITE_COST,
                dist@[t as int] < INFINITE_COST,
                is_walk(edges, current as int, t as int, ws),
                walk_cost(edges, ws) == dist@[t as int] - dist@[current as int],
                rev@.len() == ws.len() + 1,
                ws.len() > 0 ==> rank[current as int] < rank[t as int],
                forall|x: int| 0 <= x < rev@.len() ==> (#[trigger] rev@[x] as int) < n,
                forall|x: int|
                    0 <= x < rev@.len() ==> #[trigger] rev@[x] as int == walk_nodes(
                        edges,
                        current as int,
                        ws,
                    )[rev@.len() - 1 - x],
            decreases rank[current as int],
        {
            let u = pred[current];
            proof {
                let ci = current as int;
                assert(dist@[ci] < INFINITE_COST && ci != s as int);
                let kk = choose|kk: int|
                    {
                        &&& 0 <= kk < edges.len()
                        &&& (#[trigger] edges[kk]).source == pred@[ci]
                        &&& edges[kk].target as int == ci
                        &&& dist@[pred@[ci] as int] as int + edges[kk].weight == dist@[ci] as int
                    };
                crate::walks::lemma_walk_cons(edges, ci, t as int, ws, kk);
                let ghost ows = ws;
                ws = seq![kk] + ws;
                assert(walk_nodes(edges, u as int, ws) =~= seq![u as int] + walk_nodes(
                    edges,
                    ci,
                    ows,
                ));
            }
            current = u;
            rev.push(u);
        }

        let ghost ns = walk_nodes(edges, s as int, ws);
        proof {
            assert(ns[0] == s as int);
            if ws.len() > 0 {
                assert(ns[ns.len() - 1] == edges[ws[ws.len() - 1]].target as int);
            }
            assert(ns[ns.len() - 1] == t as int);
            assert(walk_cost(edges, ws) == dist@[t as int] as int);
        }
        let mut trace: Vec<(i64, i64)> = Vec::new();
        let mut j: usize = rev.len();
        while j > 0
            invariant
                self.wf(),
                n == self.nodes@.len(),
                0 <= j <= rev@.len(),
                trace@.len() == rev@.len() - j,
                forall|x: int| 0 <= x < rev@.len() ==> (#[trigger] rev@[x] as int) < n,
                forall|x: int|
                    0 <= x < trace@.len() ==> #[trigger] trace@[x] == (
                        self.nodes@[rev@[rev@.len() - 1 - x] as int].lon,
                        self.nodes@[rev@[rev@.len() - 1 - x] as int].lat,
                    ),
            decreases j,
        {
            j = j - 1;
            let v = rev[j];
            trace.push((self.nodes[v].lon, self.nodes[v].lat));
        }
        proof {
            assert(trace@ =~= coords_of(self.nodes@, ns));
            assert(is_walk(edges, s as int, t as int, ws) && walk_cost(edges, ws) == cost as int
                && trace@ == coords_of(self.nodes@, walk_nodes(edges, s as int, ws)));
            if s == t {
                crate::walks::lemma_min_cost_self(edges, s as int);
                crate::walks::lemma_min_cost_unique(edges, s as int, t as int, 0, cost as int);
                assert(ws.len() == 0);
            }
            assert(trace@[0] == (self.nodes@[s as int].lon, self.nodes@[s as int].lat));
            assert(trace@[trace@.len() - 1] == (
                self.nodes@[t as int].lon,
                self.nodes@[t as int].lat,
            ));
        }
        Some((trace, cost))
    }

    /// Alternate single-pair search for non-negative weights (which
    /// every weight is here): settles nodes in order of tentative
    /// cost, ties broken by dense index, and stops at the first
    /// settling of the target. Computes the cost only; the returned
    /// cost is exactly the cheapest walk cost, and `None` means the
    /// target is unreached.
    #[verifier::rlimit(100)]
    #[verifier::spinoff_prover]
    pub fn djikstra(&self, source: usize, target: usize) -> (r: Option<u64>)
        requires
            self.wf(),
            (source as int) < self.nodes@.len(),
            (target as int) < self.nodes@.len(),
        ensures
            match r {
                Some(c) => c < INFINITE_COST && min_cost(
                    self.edges@,
                    source as int,
                    target as int,
                    c as int,
                ),
                None => min_cost(
                    self.edges@,
                    source as int,
                    target as int,
                    INFINITE_COST as int,
                ),
            },
    {
        let n = self.nodes.len();
        let m = self.edges.len();
        let ghost edges = self.edges@;
        let ghost src = source as int;

        let mut dist: Vec<u64> = Vec::new();
        let mut i: usize = 0;
        while i < n
            invariant
                0 <= i <= n,
                dist@.len() == i,
                forall|j: int| 0 <= j < i ==> (#[trigger] dist@[j]) == u64::MAX,
            decreases n - i,
        {
            dist.push(u64::MAX);
            i = i + 1;
        }
        dist[source] = 0;

        let mut visited: Vec<bool> = Vec::new();
        let mut i2: usize = 0;
        while i2 < n
            invariant
                0 <= i2 <= n,
                visited@.len() == i2,
                count_true(visited@) == 0,
                forall|j: int| 0 <= j < i2 ==> !(#[trigger] visited@[j]),
            decreases n - i2,
        {
            let ghost ov = visited@;
            visited.push(false);
            proof {
                assert(visited@.drop_last() =~= ov);
            }
            i2 = i2 + 1;
        }
        let mut count: usize = 0;

        let ghost mut wit: Map<int, Seq<int>> = Map::empty().insert(src, Seq::<int>::empty());
        proof {
            assert(is_walk(edges, src, src, Seq::<int>::empty()));
            assert(walk_cost(edges, Seq::<int>::empty()) == 0);
        }
        if source == target {
            proof {
                crate::walks::lemma_min_cost_self(edges, src);
            }
            return Some(0);
        }

        while count < n
            invariant
                self.wf(),
                edges == self.edges@,
                src == source as int,
                n == self.nodes@.len(),
                m == edges.len(),
                (source as int) < n,
                (target as int) < n,
                dist@.len() == n,
                visited@.len() == n,
                dist@[src] == 0,
                count == count_true(visited@),
                !visited@[target as int],
                settled_exact(edges, src, dist@, visited@),
                relaxed_from(edges, dist@, visited@),
                wit_ok(edges, src, dist@, wit),
            decreases n - count,
        {
            let mut best: usize = n;
            let mut bestd: u64 = u64::MAX;
            let mut v: usize = 0;
            while v < n
                invariant
                    0 <= v <= n,
                    n == dist@.len(),
                    n == visited@.len(),
                    best <= n,
                    best == n ==> bestd == u64::MAX,
                    best < n ==> !visited@[best as int] && dist@[best as int] == bestd && bestd
                        < u64::MAX,
                    forall|x: int|
                        0 <= x < v && !visited@[x] ==> bestd <= #[trigger] dist@[x],
                decreases n - v,
            {
                if !visited[v] && dist[v] < bestd {
                    best = v;
                    bestd = dist[v];
                }
                v = v + 1;
            }
            if best == n {
                proof {
                    assert forall|w: Seq<int>|
                        #[trigger] is_walk(edges, src, target as int, w) && walk_cost(edges, w)
                            < INFINITE_COST implies INFINITE_COST as int <= walk_cost(
                        edges,
                        w,
                    ) by {
                        lemma_first_unsettled(edges, dist@, visited@, src, target as int, w);
                        let y = choose|y: int|
                            0 <= y < dist@.len() && !(#[trigger] visited@[y]) && dist@[y] as int
                                <= walk_cost(edges, w);
                        assert(bestd <= dist@[y]);
                        assert(false);
                    }
                    assert(min_cost(edges, src, target as int, INFINITE_COST as int));
                }
                return None;
            }
            let u = best;
            proof {
                assert forall|w: Seq<int>|
                    #[trigger] is_walk(edges, src, u as int, w) && walk_cost(edges, w)
                        < INFINITE_COST implies dist@[u as int] as int <= walk_cost(edges, w) by {
                    lemma_first_unsettled(edges, dist@, visited@, src, u as int, w);
                    let y = choose|y: int|
                        0 <= y < dist@.len() && !(#[trigger] visited@[y]) && dist@[y] as int
                            <= walk_cost(edges, w);
                    assert(bestd <= dist@[y]);
                }
                assert(is_walk(edges, src, u as int, wit[u as int]) && walk_cost(
                    edges,
                    wit[u as int],
                ) == dist@[u as int]);
                assert(min_cost(edges, src, u as int, dist@[u as int] as int));
            }
            if u == target {
                return Some(dist[u]);
            }
            let ghost ovis = visited@;
            visited[u] = true;
            count = count + 1;
            proof {
                assert(visited@ =~= ovis.update(u as int, true));
                lemma_count_true_update(ovis, u as int);
            }
            let mut k: usize = 0;
            while k < m
                invariant
                    0 <= k <= m,
                    self.wf(),
                    edges == self.edges@,
                    src == source as int,
                    n == self.nodes@.len(),
                    m == edges.len(),
                    (u as int) < n,
                    (target as int) < n,
                    u != target,
                    dist@.len() == n,
                    visited@.len() == n,
                    ovis.len() == n,
                    visited@ == ovis.update(u as int, true),
                    !ovis[u as int],
                    dist@[src] == 0,
                    settled_exact(edges, src, dist@, visited@),
                    relaxed_from(edges, dist@, ovis),
                    wit_ok(edges, src, dist@, wit),
                    forall|k2: int|
                        0 <= k2 < k && (#[trigger] edges[k2]).source == u ==> {
                            let e = edges[k2];
                            dist@[e.source as int] as int + e.weight >= INFINITE_COST
                                || dist@[e.target as int] as int <= dist@[e.source as int] as int
                                + e.weight
                        },
                decreases m - k,
            {
                let es = self.edges[k].source;
                if es == u {
                    let et = self.edges[k].target;
                    let wgt = self.edges[k].weight;
                    proof {
                        assert(edges[k as int].target < n);
                    }
                    let du = dist[u];
                    match du.checked_add(wgt) {
                        Some(c) => {
                            if c < dist[et] {
                                proof {
                                    assert(u != et);
                                    crate::walks::lemma_walk_push(
                                        edges,
                                        src,
                                        u as int,
                                        wit[u as int],
                                        k as int,
                                    );
                                    if visited@[et as int] {
                                        assert(is_walk(
                                            edges,
                                            src,
                                            et as int,
                                            wit[u as int].push(k as int),
                                        ) && walk_cost(edges, wit[u as int].push(k as int)) == c);
                                        assert(dist@[et as int] as int <= c);
                                        assert(false);
                                    }
                                }
                                let ghost odist = dist@;
                                dist[et] = c;
                                proof {
                                    wit = wit.insert(et as int, wit[u as int].push(k as int));
                                    assert(dist@ =~= odist.update(et as int, c));
                                    assert forall|x: int|
                                        0 <= x < dist@.len() && #[trigger] dist@[x]
                                            < INFINITE_COST implies wit.dom().contains(x)
                                        && is_walk(edges, src, x, wit[x]) && walk_cost(
                                        edges,
                                        wit[x],
                                    ) == dist@[x] by {
                                        if x != et as int {
                                            assert(dist@[x] == odist[x]);
                                        }
                                    }
                                }
                            }
                        },
                        None => {},
                    }
                }
                k = k + 1;
            }
            proof {
                assert forall|k2: int|
                    0 <= k2 < edges.len() && visited@[(#[trigger] edges[k2]).source as int] implies {
                    let e = edges[k2];
                    dist@[e.source as int] as int + e.weight >= INFINITE_COST || dist@[e.target
                        as int] as int <= dist@[e.source as int] as int + e.weight
                } by {
                    let e = edges[k2];
                    if e.source as int != u as int {
                        assert(ovis[e.source as int]);
                    }
                }
            }
        }
        proof {
            lemma_count_true_missing(visited@, target as int);
            assert(false);
        }
        None
    }

    /// Computes, for a source external identifier and a travel
    /// budget, every node whose cheapest cost from the source fits
    /// the budget: its coordinates and the remaining budget, in
    /// dense-index order. An unknown identifier yields `None`.
    pub fn reachability(&self, source: i64, capacity: u64) -> (r: Option<Vec<(i64, i64, u64)>>)
        requires
            self.wf(),
        ensures
            match r {
                None => !has_node_id(self.nodes@, source),
                Some(list) => {
                    let s = first_id_index(self.nodes@, source);
                    &&& has_node_id(self.nodes@, source)
                    &&& exists|ds: Seq<u64>|
                        {
                            &&& ds.len() == self.nodes@.len()
                            &&& (forall|v: int|
                                0 <= v < ds.len() ==> min_cost(
                                    self.edges@,
                                    s,
                                    v,
                                    #[trigger] ds[v] as int,
                                ))
                            &&& list@ == #[trigger] reach_seq(
                                self.nodes@,
                                ds,
                                capacity,
                                self.nodes@.len() as int,
                            )
                        }
                },
            },
    {
        let n = self.nodes.len();
        let s = match self.get_id_from_osm(source) {
            None => { return None; },
            Some(s) => s,
        };
        let (pred, dist) = self.bellman(s);
        let mut list: Vec<(i64, i64, u64)> = Vec::new();
        let mut v: usize = 0;
        while v < n
            invariant
                self.wf(),
                n == self.nodes@.len(),
                dist@.len() == n,
                0 <= v <= n,
                list@ == reach_seq(self.nodes@, dist@, capacity, v as int),
            decreases n - v,
        {
            let d = dist[v];
            if d <= capacity {
                let loc = self.get_loc_from_id(v);
                list.push((loc.0, loc.1, capacity - d));
            }
            proof {
                assert(list@ =~= reach_seq(self.nodes@, dist@, capacity, v as int + 1));
            }
            v = v + 1;
        }
        proof {
            assert(forall|vv: int|
                0 <= vv < dist@.len() ==> min_cost(
                    self.edges@,
                    s as int,
                    vv,
                    #[trigger] dist@[vv] as int,
                ));
        }
        Some(list)
    }
}

/// Every edge leaving a settled node is relaxed.
spec fn relaxed_from(edges: Seq<Edge>, dist: Seq<u64>, visited: Seq<bool>) -> bool {
    forall|k: int|
        0 <= k < edges.len() && visited[(#[trigger] edges[k]).source as int] ==> {
            let e = edges[k];
            dist[e.source as int] as int + e.weight >= INFINITE_COST || dist[e.target as int]
                as int <= dist[e.source as int] as int + e.weight
        }
}

/// Every settled node's distance is exactly the cheapest walk cost.
spec fn settled_exact(edges: Seq<Edge>, source: int, dist: Seq<u64>, visited: Seq<bool>) -> bool {
    forall|v: int|
        0 <= v < dist.len() && #[trigger] visited[v] ==> dist[v] < INFINITE_COST && min_cost(
            edges,
            source,
            v,
            dist[v] as int,
        )
}

/// The number of settled nodes.
spec fn count_true(s: Seq<bool>) -> int
    decreases s.len(),
{
    if s.len() == 0 {
        0
    } else {
        count_true(s.drop_last()) + if s.last() {
            1int
        } else {
            0int
        }
    }
}

proof fn lemma_count_true_bound(s: Seq<bool>)
    ensures
        0 <= count_true(s) <= s.len(),
    decreases s.len(),
{
    if s.len() > 0 {
        lemma_count_true_bound(s.drop_last());
    }
}

proof fn lemma_count_true_missing(s: Seq<bool>, i: int)
    requires
        0 <= i < s.len(),
        !s[i],
    ensures
        count_true(s) < s.len(),
    decreases s.len(),
{
    lemma_count_true_bound(s.drop_last());
    if i < s.len() - 1 {
        lemma_count_true_missing(s.drop_last(), i);
    }
}

proof fn lemma_count_true_update(s: Seq<bool>, i: int)
    requires
        0 <= i < s.len(),
        !s[i],
    ensures
        count_true(s.update(i, true)) == count_true(s) + 1,
    decreases s.len(),
{
    let u = s.update(i, true);
    if i == s.len() - 1 {
        assert(u.drop_last() =~= s.drop_last());
        assert(u.last());
    } else {
        assert(u.drop_last() =~= s.drop_last().update(i, true));
        assert(u.last() == s.last());
        lemma_count_true_update(s.drop_last(), i);
    }
}

/// Any finite-cost walk from the source to an unsettled node passes
/// some unsettled node whose recorded distance the walk already
/// covers: the heart of the greedy argument. Needs the settled
/// distances exact and the edges out of settled nodes relaxed.
proof fn lemma_first_unsettled(
    edges: Seq<Edge>,
    dist: Seq<u64>,
    visited: Seq<bool>,
    source: int,
    t: int,
    w: Seq<int>,
)
    requires
        crate::model::edges_in_range(edges, dist.len() as nat),
        visited.len() == dist.len(),
        0 <= source < dist.len(),
        dist[source] == 0,
        settled_exact(edges, source, dist, visited),
        relaxed_from(edges, dist, visited),
        0 <= t < dist.len(),
        !visited[t],
        is_walk(edges, source, t, w),
        walk_cost(edges, w) < INFINITE_COST,
    ensures
        exists|y: int|
            0 <= y < dist.len() && !(#[trigger] visited[y]) && dist[y] as int <= walk_cost(
                edges,
                w,
            ),
    decreases w.len(),
{
    crate::walks::lemma_walk_cost_nonneg(edges, w);
    if w.len() == 0 {
        assert(!visited[t] && dist[t] as int <= walk_cost(edges, w));
    } else {
        let k = w.last();
        let z = edges[k].source as int;
        crate::walks::lemma_walk_drop_last(edges, source, t, w);
        crate::walks::lemma_walk_cost_nonneg(edges, w.drop_last());
        if visited[z] {
            assert(is_walk(edges, source, z, w.drop_last()) && walk_cost(edges, w.drop_last())
                < INFINITE_COST);
            assert(dist[z] as int <= walk_cost(edges, w.drop_last()));
            assert(dist[t] as int <= dist[z] as int + edges[k].weight);
            assert(!visited[t] && dist[t] as int <= walk_cost(edges, w));
        } else {
            lemma_first_unsettled(edges, dist, visited, source, z, w.drop_last());
            let y = choose|y: int|
                0 <= y < dist.len() && !(#[trigger] visited[y]) && dist[y] as int <= walk_cost(
                    edges,
                    w.drop_last(),
                );
            assert(dist[y] as int <= walk_cost(edges, w));
        }
    }
}

/// At a relaxation fixed point, the recorded distance of any node is
/// a lower bound on the cost of every walk to it from the source.
proof fn lemma_relaxed_lower_bound(
    edges: Seq<Edge>,
    dist: Seq<u64>,
    source: int,
    t: int,
    w: Seq<int>,
)
    requires
        relaxed(edges, dist),
        crate::model::edges_in_range(edges, dist.len() as nat),
        0 <= source < dist.len(),
        dist[source] == 0,
        0 <= t < dist.len(),
        is_walk(edges, source, t, w),
        walk_cost(edges, w) < INFINITE_COST,
    ensures
        dist[t] as int <= walk_cost(edges, w),
    decreases w.len(),
{
    if w.len() == 0 {
    } else {
        let k = w.last();
        let u = edges[k].source as int;
        crate::walks::lemma_walk_drop_last(edges, source, t, w);
        crate::walks::lemma_walk_cost_nonneg(edges, w.drop_last());
        lemma_relaxed_lower_bound(edges, dist, source, u, w.drop_last());
        assert(edges[k].target as int == t);
    }
}

} // verus!
