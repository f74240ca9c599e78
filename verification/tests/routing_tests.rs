use erouter::builder::{EdgePolicy, GraphBuilder, TagListPolicy, Way};
use erouter::model::{Edge, Node, SerializableGraph};
use erouter::INFINITE_COST;

const DEG: i64 = 1_000_000;

/// Nodes A(0,0) B(0,1) C(1,1), edges A->B and B->C, weights in
/// milli-units so that fractional budgets can be expressed.
fn abc_graph(w_ab: u64, w_bc: u64) -> erouter::model::Graph {
    let nodes = vec![
        Node { id: 1, lon: 0, lat: 0 },
        Node { id: 2, lon: 0, lat: DEG },
        Node { id: 3, lon: DEG, lat: DEG },
    ];
    let edges = vec![
        Edge { source: 0, target: 1, weight: w_ab, highway_tag: Vec::new() },
        Edge { source: 1, target: 2, weight: w_bc, highway_tag: Vec::new() },
    ];
    SerializableGraph { edges, nodes }.to_graph().unwrap()
}

#[test]
fn route_two_hops() {
    let g = abc_graph(1, 1);
    let (path, cost) = g.route(1, 3).unwrap();
    assert_eq!(cost, 2);
    assert_eq!(path, vec![(0, 0), (0, DEG), (DEG, DEG)]);
}

#[test]
fn route_identity_is_single_point() {
    let g = abc_graph(1, 1);
    let (path, cost) = g.route(2, 2).unwrap();
    assert_eq!(cost, 0);
    assert_eq!(path, vec![(0, DEG)]);
}

#[test]
fn route_unreached_target_is_degenerate() {
    let g = abc_graph(1, 1);
    let (path, cost) = g.route(3, 1).unwrap();
    assert_eq!(cost, INFINITE_COST);
    assert_eq!(path, vec![(DEG, DEG), (0, 0)]);
}

#[test]
fn route_unknown_id_is_none() {
    let g = abc_graph(1, 1);
    assert!(g.route(1, 99).is_none());
    assert!(g.route(99, 1).is_none());
}

#[test]
fn reachability_respects_budget() {
    // Weights 1000 per hop; a budget of 1500 covers A and B only.
    let g = abc_graph(1000, 1000);
    let list = g.reachability(1, 1500).unwrap();
    assert_eq!(list, vec![(0, 0, 1500), (0, DEG, 500)]);
}

#[test]
fn reachability_zero_budget() {
    let g = abc_graph(1000, 1000);
    let list = g.reachability(1, 0).unwrap();
    assert_eq!(list, vec![(0, 0, 0)]);
}

#[test]
fn reachability_unknown_source_is_none() {
    let g = abc_graph(1, 1);
    assert!(g.reachability(42, 10).is_none());
}

#[test]
fn route_picks_cheaper_of_parallel_edges() {
    let nodes = vec![Node { id: 10, lon: 0, lat: 0 }, Node { id: 20, lon: DEG, lat: 0 }];
    let edges = vec![
        Edge { source: 0, target: 1, weight: 7, highway_tag: Vec::new() },
        Edge { source: 0, target: 1, weight: 3, highway_tag: Vec::new() },
    ];
    let g = SerializableGraph { edges, nodes }.to_graph().unwrap();
    let (path, cost) = g.route(10, 20).unwrap();
    assert_eq!(cost, 3);
    assert_eq!(path.len(), 2);
}

#[test]
fn route_handles_cycles() {
    // A two-node cycle must not keep the relaxation loop running.
    let nodes = vec![Node { id: 1, lon: 0, lat: 0 }, Node { id: 2, lon: DEG, lat: 0 }];
    let edges = vec![
        Edge { source: 0, target: 1, weight: 2, highway_tag: Vec::new() },
        Edge { source: 1, target: 0, weight: 2, highway_tag: Vec::new() },
    ];
    let g = SerializableGraph { edges, nodes }.to_graph().unwrap();
    let (_, cost) = g.route(1, 2).unwrap();
    assert_eq!(cost, 2);
}

#[test]
fn route_with_zero_weight_edges() {
    let nodes = vec![
        Node { id: 1, lon: 0, lat: 0 },
        Node { id: 2, lon: DEG, lat: 0 },
        Node { id: 3, lon: 2 * DEG, lat: 0 },
    ];
    let edges = vec![
        Edge { source: 0, target: 1, weight: 0, highway_tag: Vec::new() },
        Edge { source: 1, target: 2, weight: 0, highway_tag: Vec::new() },
        Edge { source: 2, target: 0, weight: 0, highway_tag: Vec::new() },
    ];
    let g = SerializableGraph { edges, nodes }.to_graph().unwrap();
    let (path, cost) = g.route(1, 3).unwrap();
    assert_eq!(cost, 0);
    assert_eq!(path, vec![(0, 0), (DEG, 0), (2 * DEG, 0)]);
}

#[test]
fn appending_unrelated_edge_keeps_route_cost() {
    // Route monotonicity, on concrete values: an extra positive
    // edge between nodes the source cannot reach leaves the cost
    // unchanged.
    let nodes = vec![
        Node { id: 1, lon: 0, lat: 0 },
        Node { id: 2, lon: DEG, lat: 0 },
        Node { id: 3, lon: 0, lat: DEG },
        Node { id: 4, lon: DEG, lat: DEG },
    ];
    let edges = vec![Edge { source: 0, target: 1, weight: 5, highway_tag: Vec::new() }];
    let g = SerializableGraph { edges: edges.clone(), nodes: nodes.clone() }.to_graph().unwrap();
    let (_, cost_before) = g.route(1, 2).unwrap();

    let mut more = edges.clone();
    more.push(Edge { source: 2, target: 3, weight: 9, highway_tag: Vec::new() });
    let g2 = SerializableGraph { edges: more, nodes }.to_graph().unwrap();
    let (_, cost_after) = g2.route(1, 2).unwrap();
    assert_eq!(cost_before, cost_after);
}

#[test]
fn djikstra_agrees_with_route() {
    let g = abc_graph(3, 4);
    let (_, cost) = g.route(1, 3).unwrap();
    assert_eq!(g.djikstra(0, 2), Some(cost));
    assert_eq!(g.djikstra(0, 2), Some(7));
}

#[test]
fn djikstra_identity_and_unreached() {
    let g = abc_graph(1, 1);
    assert_eq!(g.djikstra(1, 1), Some(0));
    assert_eq!(g.djikstra(2, 0), None);
}

#[test]
fn djikstra_short_circuits_on_cheapest() {
    // Two ways to the target: direct and via the middle node; the
    // cheaper one wins.
    let nodes = vec![
        Node { id: 1, lon: 0, lat: 0 },
        Node { id: 2, lon: DEG, lat: 0 },
        Node { id: 3, lon: 2 * DEG, lat: 0 },
    ];
    let edges = vec![
        Edge { source: 0, target: 2, weight: 10, highway_tag: Vec::new() },
        Edge { source: 0, target: 1, weight: 2, highway_tag: Vec::new() },
        Edge { source: 1, target: 2, weight: 3, highway_tag: Vec::new() },
    ];
    let g = SerializableGraph { edges, nodes }.to_graph().unwrap();
    assert_eq!(g.djikstra(0, 2), Some(5));
}

#[test]
fn builder_policy_weights_feed_routing() {
    let ways = vec![Way { highway_tag: b"motorway".to_vec(), nodes: vec![100, 200, 300] }];
    let records = vec![
        Node { id: 100, lon: 0, lat: 0 },
        Node { id: 200, lon: DEG, lat: 0 },
        Node { id: 300, lon: 2 * DEG, lat: 0 },
    ];
    let policy = TagListPolicy { allowed: vec![b"motorway".to_vec()] };
    assert!(policy.is_valid(&b"motorway".to_vec()));
    let sg = GraphBuilder::build_from_pbf(&ways, &records, &policy).unwrap();
    let g = sg.to_graph().unwrap();
    let (path, cost) = g.route(100, 300).unwrap();
    assert_eq!(cost, 2);
    assert_eq!(path.len(), 3);
}
