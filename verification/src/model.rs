//! Graph data model: nodes with external identifiers and micro-degree
//! coordinates, directed weighted edges over dense indices, and the
//! well-formedness invariant that every query relies on.

use vstd::prelude::*;

use crate::spatial::{SpatialIndex, SpatialPoint};

verus! {

/// Largest legal longitude in micro-degrees (180 degrees).
pub const MAX_LON_MICRO: i64 = 180_000_000;
/// Largest legal latitude in micro-degrees (90 degrees).
pub const MAX_LAT_MICRO: i64 = 90_000_000;

/// A single road-network node: the external (source-system) identifier
/// and the position in integer micro-degrees.
#[derive(Clone, Copy, Debug, PartialEq, Eq, Structural)]
pub struct Node {
    /// The external identifier associated with this node.
    pub id: i64,
    /// The longitude of this node, in micro-degrees.
    pub lon: i64,
    /// The latitude of this node, in micro-degrees.
    pub lat: i64,
}

/// A directed edge between two dense node indices.
#[derive(Clone, Debug)]
pub struct Edge {
    /// Dense index of the node where this edge starts.
    pub source: usize,
    /// Dense index of the node where this edge ends.
    pub target: usize,
    /// The traversal cost of this edge, in profile-defined units.
    pub weight: u64,
    /// The classification tag of this edge (UTF-8 bytes), possibly empty.
    pub highway_tag: Vec<u8>,
}

impl Node {
    /// A node is valid when its coordinates lie in the physical range
    /// of longitudes and latitudes.
    pub open spec fn valid(self) -> bool {
        -MAX_LON_MICRO <= self.lon <= MAX_LON_MICRO
            && -MAX_LAT_MICRO <= self.lat <= MAX_LAT_MICRO
    }
}

/// Field-for-field equality of edges, comparing tags by content.
pub open spec fn edge_models(a: Edge, b: Edge) -> bool {
    a.source == b.source && a.target == b.target && a.weight == b.weight
        && a.highway_tag@ == b.highway_tag@
}

/// Every edge endpoint is a valid dense index into a node sequence of
/// length `n`.
pub open spec fn edges_in_range(edges: Seq<Edge>, n: nat) -> bool {
    forall|k: int|
        0 <= k < edges.len() ==> (#[trigger] edges[k]).source < n && edges[k].target < n
}

/// All nodes carry coordinates in the physical range.
pub open spec fn nodes_valid(nodes: Seq<Node>) -> bool {
    forall|i: int| 0 <= i < nodes.len() ==> (#[trigger] nodes[i]).valid()
}

/// No two nodes share an external identifier.
pub open spec fn ids_unique(nodes: Seq<Node>) -> bool {
    forall|i: int, j: int|
        0 <= i < j < nodes.len() ==> (#[trigger] nodes[i]).id != (#[trigger] nodes[j]).id
}

/// The serializable part of a graph: the node and edge sequences only.
/// The spatial index is derived and rebuilt on load, never persisted.
pub struct SerializableGraph {
    /// All the edges contained in the graph.
    pub edges: Vec<Edge>,
    /// All the nodes contained in this graph.
    pub nodes: Vec<Node>,
}

impl SerializableGraph {
    /// The dense-index invariant plus node validity: established by
    /// every successful build and relied on by every query.
    pub open spec fn wf(self) -> bool {
        edges_in_range(self.edges@, self.nodes@.len())
            && nodes_valid(self.nodes@)
            && ids_unique(self.nodes@)
    }

    /// Decides well-formedness at runtime, for data that did not come
    /// out of a verified build.
    pub fn is_wf(&self) -> (b: bool)
        ensures
            b == self.wf(),
    {
        let n = self.nodes.len();
        let mut i: usize = 0;
        while i < n
            invariant
                0 <= i <= n,
                n == self.nodes@.len(),
                forall|j: int| 0 <= j < i ==> (#[trigger] self.nodes@[j]).valid(),
            decreases n - i,
        {
            let nd = self.nodes[i];
            if nd.lon < -MAX_LON_MICRO || nd.lon > MAX_LON_MICRO || nd.lat < -MAX_LAT_MICRO
                || nd.lat > MAX_LAT_MICRO {
                return false;
            }
            i = i + 1;
        }
        let mut i2: usize = 0;
        while i2 < n
            invariant
                0 <= i2 <= n,
                n == self.nodes@.len(),
                forall|a: int, b: int|
                    0 <= a < i2 && a < b < n ==> (#[trigger] self.nodes@[a]).id != (
                    #[trigger] self.nodes@[b]).id,
            decreases n - i2,
        {
            let mut j: usize = i2 + 1;
            while j < n
                invariant
                    0 <= i2 < j <= n,
                    n == self.nodes@.len(),
                    forall|b: int| i2 < b < j ==> (#[trigger] self.nodes@[b]).id != self.nodes@[i2 as int].id,
                decreases n - j,
            {
                if self.nodes[j].id == self.nodes[i2].id {
                    return false;
                }
                j = j + 1;
            }
            i2 = i2 + 1;
        }
        let m = self.edges.len();
        let mut k: usize = 0;
        while k < m
            invariant
                0 <= k <= m,
                m == self.edges@.len(),
                n == self.nodes@.len(),
                forall|e: int|
                    0 <= e < k ==> (#[trigger] self.edges@[e]).source < n && self.edges@[e].target
                        < n,
            decreases m - k,
        {
            if self.edges[k].source >= n || self.edges[k].target >= n {
                return false;
            }
            k = k + 1;
        }
        true
    }

    /// Rehydrates a persisted graph into a runtime one, rebuilding
    /// the spatial index from the node sequence. Fails with
    /// `InvariantViolation` on data that breaks the graph invariant
    /// and with `EmptyGraph` on a graph without nodes, which cannot
    /// serve queries.
    pub fn to_graph(self) -> (r: Result<Graph, crate::GraphError>)
        ensures
            match r {
                Ok(g) => {
                    &&& self.wf()
                    &&& self.nodes@.len() > 0
                    &&& g.wf()
                    &&& g.nodes@ == self.nodes@
                    &&& g.edges@ == self.edges@
                },
                Err(e) => {
                    ||| (e == crate::GraphError::InvariantViolation && !self.wf())
                    ||| (e == crate::GraphError::EmptyGraph && self.wf() && self.nodes@.len()
                        == 0)
                },
            },
    {
        if !self.is_wf() {
            return Err(crate::GraphError::InvariantViolation);
        }
        if self.nodes.len() == 0 {
            return Err(crate::GraphError::EmptyGraph);
        }
        let n = self.nodes.len();
        let mut index = SpatialIndex::new();
        let mut i: usize = 0;
        while i < n
            invariant
                0 <= i <= n,
                n == self.nodes@.len(),
                nodes_valid(self.nodes@),
                index.wf(),
                index.points@.len() == i,
                forall|j: int|
                    0 <= j < i ==> #[trigger] index.points@[j] == (SpatialPoint {
                        lon: self.nodes@[j].lon,
                        lat: self.nodes@[j].lat,
                        id: self.nodes@[j].id,
                    }),
            decreases n - i,
        {
            let nd = self.nodes[i];
            index.insert(SpatialPoint { lon: nd.lon, lat: nd.lat, id: nd.id });
            i = i + 1;
        }
        Ok(Graph { edges: self.edges, nodes: self.nodes, index })
    }
}

/// Some node carries the external identifier `id`.
pub open spec fn has_node_id(nodes: Seq<Node>, id: i64) -> bool {
    exists|i: int| 0 <= i < nodes.len() && (#[trigger] nodes[i]).id == id
}

/// The first dense index whose node carries the external identifier
/// `id`, or `-1` when no node does.
pub open spec fn first_id_index(nodes: Seq<Node>, id: i64) -> int
    decreases nodes.len(),
{
    if nodes.len() == 0 {
        -1
    } else if nodes[0].id == id {
        0
    } else {
        let r = first_id_index(nodes.drop_first(), id);
        if r < 0 {
            -1
        } else {
            1 + r
        }
    }
}

/// `first_id_index` finds the first matching node exactly when one
/// exists.
pub proof fn lemma_first_id_index(nodes: Seq<Node>, id: i64)
    ensures
        has_node_id(nodes, id) <==> 0 <= first_id_index(nodes, id) < nodes.len(),
        !has_node_id(nodes, id) ==> first_id_index(nodes, id) == -1,
        has_node_id(nodes, id) ==> nodes[first_id_index(nodes, id)].id == id,
        forall|j: int| 0 <= j < first_id_index(nodes, id) ==> (#[trigger] nodes[j]).id != id,
    decreases nodes.len(),
{
    if nodes.len() == 0 {
    } else if nodes[0].id == id {
    } else {
        let rest = nodes.drop_first();
        lemma_first_id_index(rest, id);
        assert(forall|i: int| 0 <= i < rest.len() ==> rest[i] == nodes[i + 1]);
        if has_node_id(nodes, id) {
            let i = choose|i: int| 0 <= i < nodes.len() && (#[trigger] nodes[i]).id == id;
            assert(rest[i - 1].id == id);
            assert(has_node_id(rest, id));
        }
        if has_node_id(rest, id) {
            let i = choose|i: int| 0 <= i < rest.len() && (#[trigger] rest[i]).id == id;
            assert(nodes[i + 1].id == id);
            assert(has_node_id(nodes, id));
        }
        let r = first_id_index(rest, id);
        if r >= 0 {
            assert forall|j: int| 0 <= j < first_id_index(nodes, id) implies (#[trigger] nodes[j]).id
                != id by {
                if j > 0 {
                    assert(rest[j - 1] == nodes[j]);
                }
            }
        }
    }
}

/// Finds the dense index of the first node carrying `id`, or `None`
/// when no node does.
pub fn find_node_index(nodes: &Vec<Node>, id: i64) -> (r: Option<usize>)
    ensures
        match r {
            Some(i) => has_node_id(nodes@, id) && i as int == first_id_index(nodes@, id) && (
            i as int) < nodes@.len(),
            None => !has_node_id(nodes@, id),
        },
{
    let n = nodes.len();
    let mut i: usize = 0;
    while i < n
        invariant
            0 <= i <= n,
            n == nodes@.len(),
            forall|j: int| 0 <= j < i ==> (#[trigger] nodes@[j]).id != id,
        decreases n - i,
    {
        if nodes[i].id == id {
            proof {
                lemma_first_id_index(nodes@, id);
                assert(has_node_id(nodes@, id));
                let f = first_id_index(nodes@, id);
                if f < i {
                    assert(nodes@[f].id != id);
                }
                if i < f {
                    assert(nodes@[i as int].id != id);
                }
            }
            return Some(i);
        }
        i = i + 1;
    }
    proof {
        if has_node_id(nodes@, id) {
            let j = choose|j: int| 0 <= j < nodes@.len() && (#[trigger] nodes@[j]).id == id;
            assert(nodes@[j].id != id);
        }
    }
    None
}

/// A runtime graph: the persisted node and edge sequences plus the
/// derived spatial index, rebuilt on load and kept in step with the
/// node sequence.
pub struct Graph {
    /// All the edges contained in the graph.
    pub edges: Vec<Edge>,
    /// All the nodes contained in this graph.
    pub nodes: Vec<Node>,
    /// A spatial index over the nodes, for coordinate resolution.
    pub index: SpatialIndex,
}

impl Graph {
    /// Well-formedness: the dense-index invariant, valid unique
    /// nodes, and a spatial index that mirrors the node sequence.
    pub open spec fn wf(self) -> bool {
        &&& edges_in_range(self.edges@, self.nodes@.len())
        &&& nodes_valid(self.nodes@)
        &&& ids_unique(self.nodes@)
        &&& self.index.wf()
        &&& self.index.points@.len() == self.nodes@.len()
        &&& forall|i: int|
            0 <= i < self.nodes@.len() ==> #[trigger] self.index.points@[i] == (SpatialPoint {
                lon: self.nodes@[i].lon,
                lat: self.nodes@[i].lat,
                id: self.nodes@[i].id,
            })
    }
}

} // verus!
