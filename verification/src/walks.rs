//! Walks and their costs: the mathematical model behind the routing
//! engine. A walk is a sequence of edge indices whose endpoints chain
//! up; `min_cost` characterizes the cheapest cost between two dense
//! node indices, with `INFINITE_COST` standing for "unreached".

use vstd::prelude::*;

use crate::model::Edge;
use crate::INFINITE_COST;

verus! {

/// `w` is a walk over `edges` from node `s` to node `t`: every entry
/// is a valid edge index, consecutive edges chain target-to-source,
/// and the ends match `s` and `t`. The empty walk connects `s` to
/// itself.
pub open spec fn is_walk(edges: Seq<Edge>, s: int, t: int, w: Seq<int>) -> bool {
    &&& forall|k: int| 0 <= k < w.len() ==> 0 <= #[trigger] w[k] < edges.len()
    &&& forall|k: int|
        0 <= k < w.len() - 1 ==> edges[#[trigger] w[k]].target == edges[w[k + 1]].source
    &&& if w.len() == 0 {
        s == t
    } else {
        edges[w[0]].source == s && edges[w[w.len() - 1]].target == t
    }
}

/// The cost of a walk: the sum of its edges' weights.
pub open spec fn walk_cost(edges: Seq<Edge>, w: Seq<int>) -> int
    decreases w.len(),
{
    if w.len() == 0 {
        0
    } else {
        walk_cost(edges, w.drop_last()) + edges[w.last()].weight
    }
}

/// Weights are unsigned, so every walk cost is non-negative.
pub proof fn lemma_walk_cost_nonneg(edges: Seq<Edge>, w: Seq<int>)
    ensures
        walk_cost(edges, w) >= 0,
    decreases w.len(),
{
    if w.len() > 0 {
        lemma_walk_cost_nonneg(edges, w.drop_last());
    }
}

/// Dropping the last edge of a nonempty walk leaves a walk to that
/// edge's source.
pub proof fn lemma_walk_drop_last(edges: Seq<Edge>, s: int, t: int, w: Seq<int>)
    requires
        is_walk(edges, s, t, w),
        w.len() > 0,
    ensures
        is_walk(edges, s, edges[w.last()].source as int, w.drop_last()),
{
    let v = w.drop_last();
    assert(forall|k: int| 0 <= k < v.len() ==> v[k] == w[k]);
}

/// Appending an edge whose source is the walk's end extends the walk,
/// and adds the edge's weight to its cost.
pub proof fn lemma_walk_push(edges: Seq<Edge>, s: int, u: int, w: Seq<int>, k: int)
    requires
        is_walk(edges, s, u, w),
        0 <= k < edges.len(),
        edges[k].source == u,
    ensures
        is_walk(edges, s, edges[k].target as int, w.push(k)),
        walk_cost(edges, w.push(k)) == walk_cost(edges, w) + edges[k].weight,
{
    let v = w.push(k);
    assert(v.drop_last() =~= w);
    assert(forall|j: int| 0 <= j < w.len() ==> v[j] == w[j]);
}

/// The cost of a walk with one edge prefixed is that edge's weight
/// plus the walk's cost.
pub proof fn lemma_cost_cons(edges: Seq<Edge>, w: Seq<int>, k: int)
    ensures
        walk_cost(edges, seq![k] + w) == edges[k].weight + walk_cost(edges, w),
    decreases w.len(),
{
    let v = seq![k] + w;
    assert(v.len() == 1 + w.len());
    assert(v[0] == k);
    if w.len() == 0 {
        assert(v.last() == k);
        assert(v.drop_last() =~= Seq::<int>::empty());
        assert(walk_cost(edges, Seq::<int>::empty()) == 0);
        assert(walk_cost(edges, w) == 0);
        assert(walk_cost(edges, v) == walk_cost(edges, v.drop_last()) + edges[k].weight);
    } else {
        lemma_cost_cons(edges, w.drop_last(), k);
        assert(v.drop_last() =~= seq![k] + w.drop_last());
        assert(v.last() == w.last());
        assert(walk_cost(edges, v) == walk_cost(edges, v.drop_last()) + edges[w.last()].weight);
        assert(walk_cost(edges, w) == walk_cost(edges, w.drop_last()) + edges[w.last()].weight);
    }
}

/// Prefixing an edge whose target is the walk's start extends the
/// walk at the front, and adds the edge's weight to its cost.
pub proof fn lemma_walk_cons(edges: Seq<Edge>, u: int, t: int, w: Seq<int>, k: int)
    requires
        is_walk(edges, u, t, w),
        0 <= k < edges.len(),
        edges[k].target == u,
    ensures
        is_walk(edges, edges[k].source as int, t, seq![k] + w),
        walk_cost(edges, seq![k] + w) == edges[k].weight + walk_cost(edges, w),
{
    let v = seq![k] + w;
    assert(v[0] == k);
    assert(forall|j: int| 0 <= j < w.len() ==> v[j + 1] == w[j]);
    assert(forall|j: int| 1 <= j < v.len() ==> v[j] == w[j - 1]);
    assert forall|j: int| 0 <= j < v.len() - 1 implies edges[#[trigger] v[j]].target == edges[v[j
        + 1]].source by {
        if j > 0 {
            assert(w[j - 1] == v[j] && w[j] == v[j + 1]);
            assert(edges[w[j - 1]].target == edges[w[j]].source);
        }
    }
    if w.len() > 0 {
        assert(v[v.len() - 1] == w[w.len() - 1]);
    }
    lemma_cost_cons(edges, w, k);
}

/// The first `j` edges of a walk form a walk to the source of the
/// walk's `j`-th edge.
pub proof fn lemma_walk_take(edges: Seq<Edge>, s: int, t: int, w: Seq<int>, j: int)
    requires
        is_walk(edges, s, t, w),
        0 <= j < w.len(),
    ensures
        is_walk(edges, s, edges[w[j]].source as int, w.take(j)),
{
    let v = w.take(j);
    assert(forall|k: int| 0 <= k < v.len() ==> v[k] == w[k]);
}

/// `c` is the cheapest cost of going from `s` to `t`: some walk
/// realizes it when it is finite, and no walk of finite cost beats
/// it. `INFINITE_COST` means no walk of finite cost exists.
pub open spec fn min_cost(edges: Seq<Edge>, s: int, t: int, c: int) -> bool {
    &&& 0 <= c <= INFINITE_COST
    &&& (c < INFINITE_COST ==> exists|w: Seq<int>|
        #[trigger] is_walk(edges, s, t, w) && walk_cost(edges, w) == c)
    &&& forall|w: Seq<int>|
        #[trigger] is_walk(edges, s, t, w) && walk_cost(edges, w) < INFINITE_COST ==> c
            <= walk_cost(edges, w)
}

/// The cheapest cost between two nodes is unique.
pub proof fn lemma_min_cost_unique(edges: Seq<Edge>, s: int, t: int, c1: int, c2: int)
    requires
        min_cost(edges, s, t, c1),
        min_cost(edges, s, t, c2),
    ensures
        c1 == c2,
{
    if c1 < INFINITE_COST {
        let w = choose|w: Seq<int>| #[trigger] is_walk(edges, s, t, w) && walk_cost(edges, w) == c1;
        assert(c2 <= c1);
    }
    if c2 < INFINITE_COST {
        let w = choose|w: Seq<int>| #[trigger] is_walk(edges, s, t, w) && walk_cost(edges, w) == c2;
        assert(c1 <= c2);
    }
}

/// Any node reaches itself at cost zero, by the empty walk.
pub proof fn lemma_min_cost_self(edges: Seq<Edge>, v: int)
    ensures
        min_cost(edges, v, v, 0),
{
    let e = Seq::<int>::empty();
    assert(is_walk(edges, v, v, e));
    assert(walk_cost(edges, e) == 0);
    assert forall|w: Seq<int>|
        #[trigger] is_walk(edges, v, v, w) && walk_cost(edges, w) < INFINITE_COST implies 0
        <= walk_cost(edges, w) by {
        lemma_walk_cost_nonneg(edges, w);
    }
}

/// A walk of a graph is a walk of the same cost in the graph extended
/// by one more edge.
pub proof fn lemma_walk_in_extended(edges: Seq<Edge>, e: Edge, s: int, t: int, w: Seq<int>)
    requires
        is_walk(edges, s, t, w),
    ensures
        is_walk(edges.push(e), s, t, w),
        walk_cost(edges.push(e), w) == walk_cost(edges, w),
    decreases w.len(),
{
    if w.len() > 0 {
        lemma_walk_drop_last(edges, s, t, w);
        lemma_walk_in_extended(edges, e, s, edges[w.last()].source as int, w.drop_last());
    }
}

/// A walk of the extended graph that never uses the new edge is a
/// walk of the original graph, at the same cost.
pub proof fn lemma_walk_from_extended(edges: Seq<Edge>, e: Edge, s: int, t: int, w: Seq<int>)
    requires
        is_walk(edges.push(e), s, t, w),
        forall|k: int| 0 <= k < w.len() ==> #[trigger] w[k] != edges.len(),
    ensures
        is_walk(edges, s, t, w),
        walk_cost(edges, w) == walk_cost(edges.push(e), w),
    decreases w.len(),
{
    assert(forall|k: int| 0 <= k < w.len() ==> 0 <= #[trigger] w[k] < edges.len());
    if w.len() > 0 {
        lemma_walk_drop_last(edges.push(e), s, t, w);
        lemma_walk_from_extended(edges, e, s, edges.push(e)[w.last()].source as int, w.drop_last());
    }
}

/// No walk at all leads from `s` to `t`.
pub open spec fn unreachable_from(edges: Seq<Edge>, s: int, t: int) -> bool {
    forall|w: Seq<int>| !is_walk(edges, s, t, w)
}

/// Appending an edge to the graph never increases the cheapest cost
/// between any pair of nodes: every old walk is still available.
pub proof fn lemma_extend_never_increases(
    edges: Seq<Edge>,
    e: Edge,
    s: int,
    t: int,
    c: int,
    c2: int,
)
    requires
        min_cost(edges, s, t, c),
        min_cost(edges.push(e), s, t, c2),
    ensures
        c2 <= c,
{
    if c < INFINITE_COST {
        let w = choose|w: Seq<int>| #[trigger] is_walk(edges, s, t, w) && walk_cost(edges, w) == c;
        lemma_walk_in_extended(edges, e, s, t, w);
        assert(is_walk(edges.push(e), s, t, w) && walk_cost(edges.push(e), w) < INFINITE_COST);
    }
}

/// Appending an edge whose source the start node cannot reach leaves
/// the cheapest cost unchanged: no walk from `s` can ever enter the
/// new edge, so the walks between `s` and `t` are the same.
pub proof fn lemma_extend_unrelated(edges: Seq<Edge>, e: Edge, s: int, t: int, c: int, c2: int)
    requires
        unreachable_from(edges, s, e.source as int),
        min_cost(edges, s, t, c),
        min_cost(edges.push(e), s, t, c2),
    ensures
        c2 == c,
{
    lemma_extend_never_increases(edges, e, s, t, c, c2);
    assert forall|w: Seq<int>| #[trigger] is_walk(edges.push(e), s, t, w) implies is_walk(
        edges,
        s,
        t,
        w,
    ) && walk_cost(edges, w) == walk_cost(edges.push(e), w) by {
        lemma_extended_walk_avoids_new_edge(edges, e, s, t, w);
        lemma_walk_from_extended(edges, e, s, t, w);
    }
    if c2 < INFINITE_COST {
        let w = choose|w: Seq<int>|
            #[trigger] is_walk(edges.push(e), s, t, w) && walk_cost(edges.push(e), w) == c2;
        assert(is_walk(edges, s, t, w) && walk_cost(edges, w) < INFINITE_COST);
        assert(c <= c2);
    } else {
        if c < INFINITE_COST {
            let w = choose|w: Seq<int>|
                #[trigger] is_walk(edges, s, t, w) && walk_cost(edges, w) == c;
            lemma_walk_in_extended(edges, e, s, t, w);
            assert(is_walk(edges.push(e), s, t, w) && walk_cost(edges.push(e), w)
                < INFINITE_COST);
            assert(c2 <= c);
            assert(false);
        }
    }
}

/// If `s` cannot reach the new edge's source in the original graph,
/// then no walk from `s` in the extended graph uses the new edge.
pub proof fn lemma_extended_walk_avoids_new_edge(
    edges: Seq<Edge>,
    e: Edge,
    s: int,
    t: int,
    w: Seq<int>,
)
    requires
        unreachable_from(edges, s, e.source as int),
        is_walk(edges.push(e), s, t, w),
    ensures
        forall|k: int| 0 <= k < w.len() ==> #[trigger] w[k] != edges.len(),
{
    let m = edges.len() as int;
    assert forall|k: int| 0 <= k < w.len() implies #[trigger] w[k] != m by {
        if w[k] == m {
            let k0 = first_new_edge_use(edges, w, 0);
            lemma_first_new_edge_use(edges, w, 0, k);
            let p = w.take(k0);
            lemma_walk_take(edges.push(e), s, t, w, k0);
            assert(edges.push(e)[w[k0]] == e);
            assert(forall|j: int| 0 <= j < p.len() ==> #[trigger] p[j] != m);
            lemma_walk_from_extended(edges, e, s, e.source as int, p);
            assert(!is_walk(edges, s, e.source as int, p));
        }
    }
}

/// The first position at or after `from` where a walk uses the edge
/// index `edges.len()`, assuming one exists.
spec fn first_new_edge_use(edges: Seq<Edge>, w: Seq<int>, from: int) -> int
    decreases w.len() - from,
{
    if from < 0 || from >= w.len() {
        from
    } else if w[from] == edges.len() {
        from
    } else {
        first_new_edge_use(edges, w, from + 1)
    }
}

proof fn lemma_first_new_edge_use(edges: Seq<Edge>, w: Seq<int>, from: int, hit: int)
    requires
        0 <= from <= hit < w.len(),
        w[hit] == edges.len(),
    ensures
        ({
            let k0 = first_new_edge_use(edges, w, from);
            &&& from <= k0 <= hit
            &&& w[k0] == edges.len()
            &&& forall|j: int| from <= j < k0 ==> #[trigger] w[j] != edges.len()
        }),
    decreases w.len() - from,
{
    if w[from] != edges.len() {
        lemma_first_new_edge_use(edges, w, from + 1, hit);
    }
}

} // verus!
