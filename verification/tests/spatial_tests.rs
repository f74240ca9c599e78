use erouter::model::{Node, SerializableGraph};
use erouter::spatial::{SpatialIndex, SpatialPoint};

const DEG: i64 = 1_000_000;

/// Three points at known coordinates; queries at varying offsets
/// must resolve to the closest one.
fn three_point_graph() -> erouter::model::Graph {
    let nodes = vec![
        Node { id: 11, lon: 0, lat: 0 },
        Node { id: 22, lon: 10 * DEG, lat: 0 },
        Node { id: 33, lon: 0, lat: 10 * DEG },
    ];
    SerializableGraph { edges: Vec::new(), nodes }.to_graph().unwrap()
}

#[test]
fn nearest_of_three_points() {
    let g = three_point_graph();
    assert_eq!(g.get_id_from_lon_lat(DEG, DEG), Some(11));
    assert_eq!(g.get_id_from_lon_lat(9 * DEG, DEG), Some(22));
    assert_eq!(g.get_id_from_lon_lat(DEG, 12 * DEG), Some(33));
    assert_eq!(g.get_id_from_lon_lat(0, 0), Some(11));
}

#[test]
fn nearest_tie_goes_to_first_inserted() {
    // The query point is equidistant from all three points; the tie
    // rule picks the lowest dense index, which is insertion order.
    let g = three_point_graph();
    let nodes = vec![
        Node { id: 5, lon: -DEG, lat: 0 },
        Node { id: 6, lon: DEG, lat: 0 },
    ];
    let g2 = SerializableGraph { edges: Vec::new(), nodes }.to_graph().unwrap();
    assert_eq!(g2.get_id_from_lon_lat(0, 0), Some(5));
    drop(g);
}

#[test]
fn nearest_on_empty_index_is_none() {
    let idx = SpatialIndex::new();
    assert_eq!(idx.nearest(0, 0), None);
}

#[test]
fn nearest_out_of_range_query_is_none() {
    let g = three_point_graph();
    assert_eq!(g.get_id_from_lon_lat(181 * DEG, 0), None);
    assert_eq!(g.get_id_from_lon_lat(0, -91 * DEG), None);
}

#[test]
fn index_returns_first_at_duplicate_positions() {
    let mut idx = SpatialIndex::new();
    idx.insert(SpatialPoint::new(3 * DEG, 4 * DEG, 100));
    idx.insert(SpatialPoint::new(3 * DEG, 4 * DEG, 200));
    idx.insert(SpatialPoint::new(-3 * DEG, -4 * DEG, 300));
    assert_eq!(idx.nearest(3 * DEG, 4 * DEG), Some(0));
    assert_eq!(idx.nearest(-3 * DEG, -4 * DEG), Some(2));
}

#[test]
fn resolve_then_route() {
    // Coordinate resolution feeds the routing query, as the serving
    // layer would do it.
    let nodes = vec![
        Node { id: 1, lon: 0, lat: 0 },
        Node { id: 2, lon: DEG, lat: 0 },
    ];
    let edges = vec![erouter::model::Edge {
        source: 0,
        target: 1,
        weight: 9,
        highway_tag: Vec::new(),
    }];
    let g = SerializableGraph { edges, nodes }.to_graph().unwrap();
    let s = g.get_id_from_lon_lat(100, -100).unwrap();
    let t = g.get_id_from_lon_lat(DEG - 100, 100).unwrap();
    let (path, cost) = g.route(s, t).unwrap();
    assert_eq!(cost, 9);
    assert_eq!(path.len(), 2);
}
