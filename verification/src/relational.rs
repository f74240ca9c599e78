//! Ingestion from a relational source: one result set of nodes
//! `(id, lon, lat)` ordered by identifier, and one of segments
//! `(source_id, target_id, forward_weight, backward_weight)`, where
//! segment endpoints are one-based row numbers. The loader emits one
//! forward and one backward edge per segment row, re-indexing the
//! one-based endpoints to dense indices.

use vstd::prelude::*;

use crate::model::{Graph, Node, MAX_LAT_MICRO, MAX_LON_MICRO};
use crate::GraphError;

verus! {

/// Every node row carries coordinates in the physical range and a
/// fresh identifier.
pub open spec fn node_rows_ok(rows: Seq<(i64, i64, i64)>) -> bool {
    &&& forall|i: int|
        0 <= i < rows.len() ==> {
            let r = #[trigger] rows[i];
            -MAX_LON_MICRO <= r.1 <= MAX_LON_MICRO && -MAX_LAT_MICRO <= r.2 <= MAX_LAT_MICRO
        }
    &&& forall|i: int, j: int|
        0 <= i < j < rows.len() ==> (#[trigger] rows[i]).0 != (#[trigger] rows[j]).0
}

/// Every segment row's endpoints are one-based row numbers of the
/// node result set.
pub open spec fn edge_rows_ok(rows: Seq<(i64, i64, u64, u64)>, n: int) -> bool {
    forall|j: int|
        0 <= j < rows.len() ==> 1 <= (#[trigger] rows[j]).0 <= n && 1 <= rows[j].1 <= n
}

impl Graph {
    /// Creates a graph from the two relational result sets. Node
    /// rows with coordinates out of range or duplicate identifiers
    /// fail with `SourceFormat`; a segment endpoint outside the node
    /// set fails with `InvariantViolation`; an empty node set with
    /// `EmptyGraph`.
    pub fn load_from_db(
        node_rows: &Vec<(i64, i64, i64)>,
        edge_rows: &Vec<(i64, i64, u64, u64)>,
    ) -> (r: Result<Graph, GraphError>)
        ensures
            match r {
                Ok(g) => {
                    &&& node_rows_ok(node_rows@)
                    &&& edge_rows_ok(edge_rows@, node_rows@.len() as int)
                    &&& node_rows@.len() > 0
                    &&& g.wf()
                    &&& g.nodes@.len() == node_rows@.len()
                    &&& forall|i: int|
                        0 <= i < g.nodes@.len() ==> (#[trigger] g.nodes@[i]) == (Node {
                            id: node_rows@[i].0,
                            lon: node_rows@[i].1,
                            lat: node_rows@[i].2,
                        })
                    &&& g.edges@.len() == 2 * edge_rows@.len()
                    &&& forall|j: int|
                        0 <= j < edge_rows@.len() ==> {
                            let row = #[trigger] edge_rows@[j];
                            let fwd = g.edges@[2 * j];
                            let bwd = g.edges@[2 * j + 1];
                            &&& fwd.source == row.0 - 1
                            &&& fwd.target == row.1 - 1
                            &&& fwd.weight == row.2
                            &&& fwd.highway_tag@ == Seq::<u8>::empty()
                            &&& bwd.source == row.1 - 1
                            &&& bwd.target == row.0 - 1
                            &&& bwd.weight == row.3
                            &&& bwd.highway_tag@ == Seq::<u8>::empty()
                        }
                },
                Err(e) => {
                    ||| (e == GraphError::SourceFormat && !node_rows_ok(node_rows@))
                    ||| (e == GraphError::InvariantViolation && node_rows_ok(node_rows@)
                        && !edge_rows_ok(edge_rows@, node_rows@.len() as int))
                    ||| (e == GraphError::EmptyGraph && node_rows_ok(node_rows@)
                        && edge_rows_ok(edge_rows@, node_rows@.len() as int) && node_rows@.len()
                        == 0)
                },
            },
    {
        let n = node_rows.len();
        let mut nds: Vec<Node> = Vec::new();
        let mut i: usize = 0;
        while i < n
            invariant
                0 <= i <= n,
                n == node_rows@.len(),
                nds@.len() == i,
                forall|x: int|
                    0 <= x < i ==> (#[trigger] nds@[x]) == (Node {
                        id: node_rows@[x].0,
                        lon: node_rows@[x].1,
                        lat: node_rows@[x].2,
                    }),
                forall|x: int| 0 <= x < i ==> (#[trigger] nds@[x]).valid(),
            decreases n - i,
        {
            let row = node_rows[i];
            if row.1 < -MAX_LON_MICRO || row.1 > MAX_LON_MICRO || row.2 < -MAX_LAT_MICRO || row.2
                > MAX_LAT_MICRO {
                proof {
                    assert(node_rows@[i as int] == row);
                    assert(!node_rows_ok(node_rows@));
                }
                return Err(GraphError::SourceFormat);
            }
            nds.push(Node { id: row.0, lon: row.1, lat: row.2 });
            i = i + 1;
        }
        let mut a: usize = 0;
        while a < n
            invariant
                0 <= a <= n,
                n == node_rows@.len(),
                nds@.len() == n,
                forall|x: int|
                    0 <= x < n ==> (#[trigger] nds@[x]) == (Node {
                        id: node_rows@[x].0,
                        lon: node_rows@[x].1,
                        lat: node_rows@[x].2,
                    }),
                forall|x: int| 0 <= x < n ==> (#[trigger] nds@[x]).valid(),
                forall|x: int, y: int|
                    0 <= x < a && x < y < n ==> (#[trigger] node_rows@[x]).0 != (
                    #[trigger] node_rows@[y]).0,
            decreases n - a,
        {
            let mut b: usize = a + 1;
            while b < n
                invariant
                    0 <= a < b <= n,
                    n == node_rows@.len(),
                    forall|y: int|
                        a < y < b ==> (#[trigger] node_rows@[y]).0 != node_rows@[a as int].0,
                decreases n - b,
            {
                if node_rows[b].0 == node_rows[a].0 {
                    proof {
                        assert(node_rows@[b as int].0 == node_rows@[a as int].0);
                        assert(!node_rows_ok(node_rows@));
                    }
                    return Err(GraphError::SourceFormat);
                }
                b = b + 1;
            }
            a = a + 1;
        }
        proof {
            assert forall|x: int| 0 <= x < n implies {
                let r = #[trigger] node_rows@[x];
                -MAX_LON_MICRO <= r.1 <= MAX_LON_MICRO && -MAX_LAT_MICRO <= r.2 <= MAX_LAT_MICRO
            } by {
                assert(nds@[x] == (Node {
                    id: node_rows@[x].0,
                    lon: node_rows@[x].1,
                    lat: node_rows@[x].2,
                }));
                assert(nds@[x].valid());
            }
            assert(node_rows_ok(node_rows@));
        }

        let m = edge_rows.len();
        let mut edges: Vec<crate::model::Edge> = Vec::new();
        let mut j: usize = 0;
        while j < m
            invariant
                0 <= j <= m,
                m == edge_rows@.len(),
                n == node_rows@.len(),
                nds@.len() == n,
                edges@.len() == 2 * j,
                node_rows_ok(node_rows@),
                forall|x: int|
                    0 <= x < n ==> (#[trigger] nds@[x]) == (Node {
                        id: node_rows@[x].0,
                        lon: node_rows@[x].1,
                        lat: node_rows@[x].2,
                    }),
                forall|x: int| 0 <= x < n ==> (#[trigger] nds@[x]).valid(),
                forall|x: int|
                    0 <= x < j ==> 1 <= (#[trigger] edge_rows@[x]).0 <= n && 1 <= edge_rows@[x].1
                        <= n,
                forall|x: int|
                    0 <= x < j ==> {
                        let row = #[trigger] edge_rows@[x];
                        let fwd = edges@[2 * x];
                        let bwd = edges@[2 * x + 1];
                        &&& fwd.source == row.0 - 1
                        &&& fwd.target == row.1 - 1
                        &&& fwd.weight == row.2
                        &&& fwd.highway_tag@ == Seq::<u8>::empty()
                        &&& bwd.source == row.1 - 1
                        &&& bwd.target == row.0 - 1
                        &&& bwd.weight == row.3
                        &&& bwd.highway_tag@ == Seq::<u8>::empty()
                        &&& fwd.source < n && fwd.target < n && bwd.source < n && bwd.target < n
                    },
                forall|e: int|
                    0 <= e < edges@.len() ==> (#[trigger] edges@[e]).source < n
                        && edges@[e].target < n,
            decreases m - j,
        {
            let row = edge_rows[j];
            let small_n = (n as u64) <= (i64::MAX as u64);
            if row.0 < 1 || row.1 < 1 || (small_n && (row.0 > n as i64 || row.1 > n as i64)) {
                proof {
                    assert(edge_rows@[j as int] == row);
                    assert(!edge_rows_ok(edge_rows@, node_rows@.len() as int));
                }
                return Err(GraphError::InvariantViolation);
            }
            proof {
                assert(row.0 <= i64::MAX && row.1 <= i64::MAX);
                assert(1 <= row.0 <= n && 1 <= row.1 <= n);
            }
            let fwd = crate::model::Edge {
                source: (row.0 - 1) as usize,
                target: (row.1 - 1) as usize,
                weight: row.2,
                highway_tag: Vec::new(),
            };
            let bwd = crate::model::Edge {
                source: (row.1 - 1) as usize,
                target: (row.0 - 1) as usize,
                weight: row.3,
                highway_tag: Vec::new(),
            };
            edges.push(fwd);
            edges.push(bwd);
            proof {
                assert(edges@[2 * (j as int)] == fwd);
                assert(edges@[2 * (j as int) + 1] == bwd);
            }
            j = j + 1;
        }

        let ghost gnds = nds@;
        let ghost gedges = edges@;
        let sg = crate::model::SerializableGraph { edges, nodes: nds };
        proof {
            assert(sg.nodes@ == gnds && sg.edges@ == gedges);
            assert(crate::model::nodes_valid(sg.nodes@));
            assert forall|x: int, y: int|
                0 <= x < y < sg.nodes@.len() implies (#[trigger] sg.nodes@[x]).id != (
            #[trigger] sg.nodes@[y]).id by {
                assert(node_rows@[x].0 != node_rows@[y].0);
            }
            assert(crate::model::edges_in_range(sg.edges@, sg.nodes@.len() as nat));
            assert(sg.wf());
        }
        match sg.to_graph() {
            Ok(g) => Ok(g),
            Err(e) => {
                proof {
                    assert(e == GraphError::EmptyGraph);
                }
                Err(e)
            },
        }
    }
}

} // verus!
