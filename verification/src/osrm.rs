//! Alternate ingestion path: a reader for a fixed-offset binary
//! road-network layout. After a 152-byte header: a 32-bit node
//! count, then per node a 32-bit longitude and latitude in
//! micro-degrees, a 64-bit external identifier and eight reserved
//! bytes; a 32-bit edge count, then per edge 32-bit source and
//! target dense indices, four reserved bytes, a 32-bit weight in raw
//! units, and eight reserved bytes. Trailing data after the edge
//! array is ignored. The reader produces the runtime graph directly,
//! bypassing the builder.

use vstd::prelude::*;

use crate::model::{Graph, Node};
use crate::GraphError;

verus! {

/// Offset of the node count.
pub const OSRM_HEADER_LEN: usize = 152;

/// The 32-bit word at a byte offset.
pub open spec fn u32at(b: Seq<u8>, pos: int) -> u32 {
    vstd::bytes::spec_u32_from_le_bytes(b.subrange(pos, pos + 4))
}

/// The 64-bit word at a byte offset.
pub open spec fn u64at(b: Seq<u8>, pos: int) -> u64 {
    vstd::bytes::spec_u64_from_le_bytes(b.subrange(pos, pos + 8))
}

/// The declared node count.
pub open spec fn osrm_node_count(b: Seq<u8>) -> int {
    u32at(b, OSRM_HEADER_LEN as int) as int
}

/// The offset of the edge count, after the node array.
pub open spec fn osrm_edges_at(b: Seq<u8>) -> int {
    OSRM_HEADER_LEN + 4 + 24 * osrm_node_count(b)
}

/// The declared edge count.
pub open spec fn osrm_edge_count(b: Seq<u8>) -> int {
    u32at(b, osrm_edges_at(b)) as int
}

/// The `i`-th node of the layout: identifier, and the stored
/// micro-degree coordinates widened from 32 bits.
pub open spec fn osrm_node(b: Seq<u8>, i: int) -> Node {
    let base = OSRM_HEADER_LEN + 4 + 24 * i;
    Node {
        id: u64at(b, base + 8) as i64,
        lon: u32at(b, base) as i32 as i64,
        lat: u32at(b, base + 4) as i32 as i64,
    }
}

/// The `j`-th edge's stored fields: source, target, weight.
pub open spec fn osrm_edge(b: Seq<u8>, j: int) -> (u32, u32, u32) {
    let base = osrm_edges_at(b) + 4 + 24 * j;
    (u32at(b, base), u32at(b, base + 4), u32at(b, base + 12))
}

/// The input is long enough for the counts it declares.
pub open spec fn osrm_shape(b: Seq<u8>) -> bool {
    &&& b.len() >= OSRM_HEADER_LEN + 4
    &&& b.len() >= osrm_edges_at(b) + 4
    &&& b.len() >= osrm_edges_at(b) + 4 + 24 * osrm_edge_count(b)
}

/// The input is well-formed: its shape holds, every node's
/// coordinates are in the physical range, identifiers are pairwise
/// distinct, and every edge endpoint is a declared dense index.
pub open spec fn osrm_valid(b: Seq<u8>) -> bool {
    &&& osrm_shape(b)
    &&& forall|i: int| 0 <= i < osrm_node_count(b) ==> (#[trigger] osrm_node(b, i)).valid()
    &&& forall|i: int, j: int|
        0 <= i < j < osrm_node_count(b) ==> (#[trigger] osrm_node(b, i)).id != (
        #[trigger] osrm_node(b, j)).id
    &&& forall|j: int|
        0 <= j < osrm_edge_count(b) ==> (#[trigger] osrm_edge(b, j)).0 < osrm_node_count(b)
            && osrm_edge(b, j).1 < osrm_node_count(b)
}

/// Reads the 32-bit word at a byte offset.
fn read_u32(bytes: &[u8], pos: usize) -> (x: u32)
    requires
        pos + 4 <= bytes@.len(),
        bytes@.len() <= usize::MAX,
    ensures
        x == u32at(bytes@, pos as int),
{
    let s = vstd::slice::slice_subrange(bytes, pos, pos + 4);
    vstd::bytes::u32_from_le_bytes(s)
}

/// Reads the 64-bit word at a byte offset.
fn read_u64_at(bytes: &[u8], pos: usize) -> (x: u64)
    requires
        pos + 8 <= bytes@.len(),
        bytes@.len() <= usize::MAX,
    ensures
        x == u64at(bytes@, pos as int),
{
    let s = vstd::slice::slice_subrange(bytes, pos, pos + 8);
    vstd::bytes::u64_from_le_bytes(s)
}

impl Graph {
    /// Creates a graph by reading the fixed binary road-network
    /// layout. Succeeds exactly on well-formed inputs that declare
    /// at least one node; malformed inputs fail with `SourceFormat`,
    /// an input without nodes with `EmptyGraph`.
    pub fn load_from_osrm(bytes: &[u8]) -> (r: Result<Graph, GraphError>)
        ensures
            match r {
                Ok(g) => {
                    &&& osrm_valid(bytes@)
                    &&& osrm_node_count(bytes@) > 0
                    &&& g.wf()
                    &&& g.nodes@.len() == osrm_node_count(bytes@)
                    &&& forall|i: int|
                        0 <= i < g.nodes@.len() ==> (#[trigger] g.nodes@[i]) == osrm_node(
                            bytes@,
                            i,
                        )
                    &&& g.edges@.len() == osrm_edge_count(bytes@)
                    &&& forall|j: int|
                        0 <= j < g.edges@.len() ==> {
                            let e = #[trigger] g.edges@[j];
                            &&& e.source == osrm_edge(bytes@, j).0
                            &&& e.target == osrm_edge(bytes@, j).1
                            &&& e.weight == osrm_edge(bytes@, j).2
                            &&& e.highway_tag@ == Seq::<u8>::empty()
                        }
                },
                Err(e) => {
                    ||| (e == GraphError::SourceFormat && !osrm_valid(bytes@))
                    ||| (e == GraphError::EmptyGraph && osrm_valid(bytes@) && osrm_node_count(
                        bytes@,
                    ) == 0)
                },
            },
    {
        let len = bytes.len();
        if len < OSRM_HEADER_LEN + 4 {
            return Err(GraphError::SourceFormat);
        }
        let ncount = read_u32(bytes, OSRM_HEADER_LEN);
        let nn = ncount as usize;
        let nodes_end_u64: u64 = (OSRM_HEADER_LEN as u64) + 4 + 24 * (ncount as u64);
        if nodes_end_u64 + 4 > len as u64 {
            return Err(GraphError::SourceFormat);
        }
        let nodes_end = nodes_end_u64 as usize;
        proof {
            assert(nodes_end == osrm_edges_at(bytes@));
        }
        let mcount = read_u32(bytes, nodes_end);
        let mm = mcount as usize;
        let edges_end_u64: u64 = (nodes_end as u64) + 4 + 24 * (mcount as u64);
        if edges_end_u64 > len as u64 {
            return Err(GraphError::SourceFormat);
        }
        proof {
            assert(osrm_shape(bytes@));
        }

        let mut nds: Vec<Node> = Vec::new();
        let mut i: usize = 0;
        while i < nn
            invariant
                0 <= i <= nn,
                len == bytes@.len() <= usize::MAX,
                nn == osrm_node_count(bytes@),
                OSRM_HEADER_LEN + 4 + 24 * nn + 4 <= len,
                nds@.len() == i,
                forall|x: int| 0 <= x < i ==> (#[trigger] nds@[x]) == osrm_node(bytes@, x),
                forall|x: int| 0 <= x < i ==> (#[trigger] nds@[x]).valid(),
            decreases nn - i,
        {
            proof {
                assert(24 * i + 24 <= 24 * nn) by (nonlinear_arith)
                    requires
                        i < nn,
                ;
            }
            let base = OSRM_HEADER_LEN + 4 + 24 * i;
            let lon32 = read_u32(bytes, base);
            let lat32 = read_u32(bytes, base + 4);
            let id64 = read_u64_at(bytes, base + 8);
            let nd = Node { id: id64 as i64, lon: (lon32 as i32) as i64, lat: (lat32 as i32) as i64 };
            if nd.lon < -crate::model::MAX_LON_MICRO || nd.lon > crate::model::MAX_LON_MICRO
                || nd.lat < -crate::model::MAX_LAT_MICRO || nd.lat > crate::model::MAX_LAT_MICRO {
                proof {
                    assert(osrm_node(bytes@, i as int) == nd);
                    assert(!osrm_valid(bytes@));
                }
                return Err(GraphError::SourceFormat);
            }
            nds.push(nd);
            proof {
                assert(nds@[i as int] == osrm_node(bytes@, i as int));
            }
            i = i + 1;
        }

        let mut edges: Vec<crate::model::Edge> = Vec::new();
        let mut j: usize = 0;
        while j < mm
            invariant
                0 <= j <= mm,
                len == bytes@.len() <= usize::MAX,
                nn == osrm_node_count(bytes@),
                mm == osrm_edge_count(bytes@),
                nodes_end == osrm_edges_at(bytes@),
                OSRM_HEADER_LEN + 4 + 24 * nn + 4 == nodes_end + 4,
                nodes_end + 4 + 24 * mm <= len,
                nds@.len() == nn,
                forall|x: int| 0 <= x < nn ==> (#[trigger] nds@[x]) == osrm_node(bytes@, x),
                forall|x: int| 0 <= x < nn ==> (#[trigger] nds@[x]).valid(),
                edges@.len() == j,
                forall|x: int|
                    0 <= x < j ==> {
                        let e = #[trigger] edges@[x];
                        &&& e.source == osrm_edge(bytes@, x).0
                        &&& e.target == osrm_edge(bytes@, x).1
                        &&& e.weight == osrm_edge(bytes@, x).2
                        &&& e.highway_tag@ == Seq::<u8>::empty()
                        &&& e.source < nn
                        &&& e.target < nn
                    },
            decreases mm - j,
        {
            proof {
                assert(24 * j + 24 <= 24 * mm) by (nonlinear_arith)
                    requires
                        j < mm,
                ;
            }
            let base = nodes_end + 4 + 24 * j;
            let src32 = read_u32(bytes, base);
            let tgt32 = read_u32(bytes, base + 4);
            let wgt32 = read_u32(bytes, base + 12);
            if src32 as usize >= nn || tgt32 as usize >= nn {
                proof {
                    assert(osrm_edge(bytes@, j as int).0 == src32 && osrm_edge(bytes@, j as int).1
                        == tgt32);
                    assert(!osrm_valid(bytes@));
                }
                return Err(GraphError::SourceFormat);
            }
            let e = crate::model::Edge {
                source: src32 as usize,
                target: tgt32 as usize,
                weight: wgt32 as u64,
                highway_tag: Vec::new(),
            };
            edges.push(e);
            j = j + 1;
        }

        let ghost gnds = nds@;
        let ghost gedges = edges@;
        let sg = crate::model::SerializableGraph { edges, nodes: nds };
        proof {
            assert(sg.nodes@ == gnds && sg.edges@ == gedges);
        }
        if !sg.is_wf() {
            proof {
                // Ranges and coordinates were checked while parsing,
                // so only duplicate identifiers can fail here.
                assert(crate::model::edges_in_range(sg.edges@, sg.nodes@.len() as nat));
                assert(crate::model::nodes_valid(sg.nodes@));
                assert(!crate::model::ids_unique(sg.nodes@));
                let (a, b) = choose|a: int, b: int|
                    0 <= a < b < sg.nodes@.len() && (#[trigger] sg.nodes@[a]).id == (
                    #[trigger] sg.nodes@[b]).id;
                assert(osrm_node(bytes@, a).id == osrm_node(bytes@, b).id);
                assert(!osrm_valid(bytes@));
            }
            return Err(GraphError::SourceFormat);
        }
        proof {
            assert forall|i: int|
                0 <= i < osrm_node_count(bytes@) implies (#[trigger] osrm_node(
                bytes@,
                i,
            )).valid() by {
                assert(gnds[i] == osrm_node(bytes@, i));
                assert(gnds[i].valid());
            }
            assert forall|a: int, b: int|
                0 <= a < b < osrm_node_count(bytes@) implies (#[trigger] osrm_node(
                bytes@,
                a,
            )).id != (#[trigger] osrm_node(bytes@, b)).id by {
                assert(gnds[a] == osrm_node(bytes@, a));
                assert(gnds[b] == osrm_node(bytes@, b));
                assert(gnds[a].id != gnds[b].id);
            }
            assert forall|j2: int|
                0 <= j2 < osrm_edge_count(bytes@) implies (#[trigger] osrm_edge(bytes@, j2)).0
                < osrm_node_count(bytes@) && osrm_edge(bytes@, j2).1 < osrm_node_count(
                bytes@,
            ) by {
                assert(gedges[j2].source == osrm_edge(bytes@, j2).0);
                assert(gedges[j2].source < nn && gedges[j2].target < nn);
            }
            assert(osrm_valid(bytes@));
        }
        match sg.to_graph() {
            Ok(g) => Ok(g),
            Err(e) => {
                proof {
                    assert(e == GraphError::EmptyGraph);
                }
                Err(e)
            },
        }
    }
}

} // verus!
