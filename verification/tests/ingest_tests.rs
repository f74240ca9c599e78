use erouter::model::Graph;
use erouter::GraphError;

const DEG: i64 = 1_000_000;

/// Extracts the error of a result whose success value has no Debug
/// form.
fn err_of<T>(r: Result<T, GraphError>) -> GraphError {
    match r {
        Err(e) => e,
        Ok(_) => panic!("expected an error"),
    }
}


fn push_u32(buf: &mut Vec<u8>, x: u32) {
    buf.extend_from_slice(&x.to_le_bytes());
}

fn push_i32(buf: &mut Vec<u8>, x: i32) {
    buf.extend_from_slice(&x.to_le_bytes());
}

fn push_u64(buf: &mut Vec<u8>, x: u64) {
    buf.extend_from_slice(&x.to_le_bytes());
}

/// Builds bytes in the fixed binary road-network layout.
fn osrm_bytes(nodes: &[(i32, i32, u64)], edges: &[(u32, u32, u32)]) -> Vec<u8> {
    let mut buf = vec![0u8; 152];
    push_u32(&mut buf, nodes.len() as u32);
    for &(lon, lat, id) in nodes {
        push_i32(&mut buf, lon);
        push_i32(&mut buf, lat);
        push_u64(&mut buf, id);
        buf.extend_from_slice(&[0u8; 8]);
    }
    push_u32(&mut buf, edges.len() as u32);
    for &(s, t, w) in edges {
        push_u32(&mut buf, s);
        push_u32(&mut buf, t);
        buf.extend_from_slice(&[0u8; 4]);
        push_u32(&mut buf, w);
        buf.extend_from_slice(&[0u8; 8]);
    }
    buf
}

#[test]
fn osrm_reader_builds_a_graph() {
    let bytes = osrm_bytes(
        &[(8_538_000, 47_372_000, 500), (8_540_000, 47_375_000, 600)],
        &[(0, 1, 7), (1, 0, 9)],
    );
    let g = Graph::load_from_osrm(bytes.as_slice()).unwrap();
    assert_eq!(g.nodes.len(), 2);
    assert_eq!(g.edges.len(), 2);
    assert_eq!(g.nodes[0].id, 500);
    assert_eq!(g.nodes[0].lon, 8_538_000);
    assert_eq!(g.nodes[0].lat, 47_372_000);
    assert_eq!(g.edges[0].source, 0);
    assert_eq!(g.edges[0].target, 1);
    assert_eq!(g.edges[0].weight, 7);
    let (path, cost) = g.route(500, 600).unwrap();
    assert_eq!(cost, 7);
    assert_eq!(path.len(), 2);
}

#[test]
fn osrm_reader_ignores_trailing_sections() {
    let mut bytes = osrm_bytes(&[(0, 0, 1)], &[]);
    bytes.extend_from_slice(&[9u8; 40]);
    let g = Graph::load_from_osrm(bytes.as_slice()).unwrap();
    assert_eq!(g.nodes.len(), 1);
}

#[test]
fn osrm_reader_rejects_truncation() {
    let bytes = osrm_bytes(&[(0, 0, 1), (1, 1, 2)], &[(0, 1, 3)]);
    let r = Graph::load_from_osrm(&bytes[..bytes.len() - 4]);
    assert_eq!(err_of(r), GraphError::SourceFormat);
    let r2 = Graph::load_from_osrm(&bytes[..100]);
    assert_eq!(err_of(r2), GraphError::SourceFormat);
}

#[test]
fn osrm_reader_rejects_bad_edge_index() {
    let bytes = osrm_bytes(&[(0, 0, 1)], &[(0, 3, 5)]);
    assert_eq!(err_of(Graph::load_from_osrm(bytes.as_slice())), GraphError::SourceFormat);
}

#[test]
fn osrm_reader_rejects_empty_node_set() {
    let bytes = osrm_bytes(&[], &[]);
    assert_eq!(err_of(Graph::load_from_osrm(bytes.as_slice())), GraphError::EmptyGraph);
}

#[test]
fn osrm_reader_rejects_duplicate_ids() {
    let bytes = osrm_bytes(&[(0, 0, 1), (5, 5, 1)], &[]);
    assert_eq!(err_of(Graph::load_from_osrm(bytes.as_slice())), GraphError::SourceFormat);
}

#[test]
fn db_loader_emits_forward_and_backward_edges() {
    let node_rows = vec![(1, 0, 0), (2, DEG, 0), (3, DEG, DEG)];
    let edge_rows = vec![(1i64, 2i64, 10u64, 20u64), (2, 3, 30, 40)];
    let g = Graph::load_from_db(&node_rows, &edge_rows).unwrap();
    assert_eq!(g.nodes.len(), 3);
    assert_eq!(g.edges.len(), 4);
    assert_eq!((g.edges[0].source, g.edges[0].target, g.edges[0].weight), (0, 1, 10));
    assert_eq!((g.edges[1].source, g.edges[1].target, g.edges[1].weight), (1, 0, 20));
    assert_eq!((g.edges[2].source, g.edges[2].target, g.edges[2].weight), (1, 2, 30));
    assert_eq!((g.edges[3].source, g.edges[3].target, g.edges[3].weight), (2, 1, 40));
    let (_, cost) = g.route(1, 3).unwrap();
    assert_eq!(cost, 40);
    let (_, back) = g.route(3, 1).unwrap();
    assert_eq!(back, 60);
}

#[test]
fn db_loader_rejects_bad_endpoints() {
    let node_rows = vec![(1, 0, 0), (2, DEG, 0)];
    let edge_rows = vec![(1i64, 5i64, 10u64, 20u64)];
    assert_eq!(
        err_of(Graph::load_from_db(&node_rows, &edge_rows)),
        GraphError::InvariantViolation
    );
    let zero = vec![(0i64, 1i64, 1u64, 1u64)];
    assert_eq!(err_of(Graph::load_from_db(&node_rows, &zero)), GraphError::InvariantViolation);
}

#[test]
fn db_loader_rejects_bad_node_rows() {
    let bad_coord = vec![(1, 200 * DEG, 0)];
    assert_eq!(
        err_of(Graph::load_from_db(&bad_coord, &Vec::new())),
        GraphError::SourceFormat
    );
    let dup = vec![(1, 0, 0), (1, DEG, 0)];
    assert_eq!(err_of(Graph::load_from_db(&dup, &Vec::new())), GraphError::SourceFormat);
}

#[test]
fn db_loader_rejects_empty_node_set() {
    assert_eq!(
        err_of(Graph::load_from_db(&Vec::new(), &Vec::new())),
        GraphError::EmptyGraph
    );
}
