use erouter::model::{Edge, Node, SerializableGraph};
use erouter::GraphError;

/// Extracts the error of a result whose success value has no Debug
/// form.
fn err_of<T>(r: Result<T, GraphError>) -> GraphError {
    match r {
        Err(e) => e,
        Ok(_) => panic!("expected an error"),
    }
}

fn sample_graph() -> SerializableGraph {
    let nodes = vec![
        Node { id: 7_777_777_777, lon: 8_538_000, lat: 47_372_000 },
        Node { id: -12, lon: -180_000_000, lat: 90_000_000 },
        Node { id: 0, lon: 0, lat: -90_000_000 },
    ];
    let edges = vec![
        Edge { source: 0, target: 1, weight: 42, highway_tag: b"motorway".to_vec() },
        Edge { source: 2, target: 0, weight: u64::MAX - 1, highway_tag: Vec::new() },
        Edge { source: 1, target: 1, weight: 0, highway_tag: b"residential".to_vec() },
    ];
    SerializableGraph { edges, nodes }
}

fn assert_same_graph(a: &SerializableGraph, b: &SerializableGraph) {
    assert_eq!(a.nodes.len(), b.nodes.len());
    for (x, y) in a.nodes.iter().zip(b.nodes.iter()) {
        assert_eq!(x, y);
    }
    assert_eq!(a.edges.len(), b.edges.len());
    for (x, y) in a.edges.iter().zip(b.edges.iter()) {
        assert_eq!(x.source, y.source);
        assert_eq!(x.target, y.target);
        assert_eq!(x.weight, y.weight);
        assert_eq!(x.highway_tag, y.highway_tag);
    }
}

#[test]
fn round_trip_is_exact() {
    let g = sample_graph();
    let bytes = g.encode();
    let back = SerializableGraph::decode(&bytes).unwrap();
    assert_same_graph(&g, &back);
}

#[test]
fn round_trip_of_empty_graph() {
    let g = SerializableGraph { edges: Vec::new(), nodes: Vec::new() };
    let bytes = g.encode();
    let back = SerializableGraph::decode(&bytes).unwrap();
    assert_eq!(back.nodes.len(), 0);
    assert_eq!(back.edges.len(), 0);
}

#[test]
fn frame_round_trip_is_exact() {
    let g = sample_graph();
    let frame = g.frame();
    let back = SerializableGraph::decode_frame(frame.as_slice()).unwrap();
    assert_same_graph(&g, &back);
}

#[test]
fn encode_really_compresses() {
    // The encoded artifact is the zlib stream of the frame, not the
    // frame itself.
    let g = sample_graph();
    assert_ne!(g.encode(), g.frame());
}

#[test]
fn decode_rejects_uncompressed_frame() {
    // A bare frame is not a zlib stream, so the compressed decoder
    // must not accept it.
    let g = sample_graph();
    let r = SerializableGraph::decode(&g.frame());
    assert_eq!(err_of(r), GraphError::SourceFormat);
}

#[test]
fn decode_rejects_garbage() {
    let r = SerializableGraph::decode(&vec![0u8, 1, 2, 3, 4, 5, 6, 7, 8, 9]);
    assert_eq!(err_of(r), GraphError::SourceFormat);
}

#[test]
fn decode_frame_rejects_truncation() {
    let g = sample_graph();
    let frame = g.frame();
    let r = SerializableGraph::decode_frame(&frame[..frame.len() - 1]);
    assert_eq!(err_of(r), GraphError::SourceFormat);
    let r2 = SerializableGraph::decode_frame(&frame[..7]);
    assert_eq!(err_of(r2), GraphError::SourceFormat);
}

#[test]
fn decode_frame_rejects_trailing_bytes() {
    let g = sample_graph();
    let mut frame = g.frame();
    frame.push(0);
    let r = SerializableGraph::decode_frame(frame.as_slice());
    assert_eq!(err_of(r), GraphError::SourceFormat);
}

#[test]
fn decode_frame_rejects_edge_out_of_range() {
    // A graph that breaks the dense-index invariant has a frame,
    // but decoding must refuse it.
    let bad = SerializableGraph {
        edges: vec![Edge { source: 5, target: 0, weight: 1, highway_tag: Vec::new() }],
        nodes: vec![Node { id: 1, lon: 0, lat: 0 }],
    };
    let frame = bad.frame();
    let r = SerializableGraph::decode_frame(frame.as_slice());
    assert_eq!(err_of(r), GraphError::SourceFormat);
}

#[test]
fn to_graph_rejects_bad_data() {
    let bad = SerializableGraph {
        edges: vec![Edge { source: 5, target: 0, weight: 1, highway_tag: Vec::new() }],
        nodes: vec![Node { id: 1, lon: 0, lat: 0 }],
    };
    assert_eq!(err_of(bad.to_graph()), GraphError::InvariantViolation);

    let empty = SerializableGraph { edges: Vec::new(), nodes: Vec::new() };
    assert_eq!(err_of(empty.to_graph()), GraphError::EmptyGraph);

    let dup = SerializableGraph {
        edges: Vec::new(),
        nodes: vec![Node { id: 1, lon: 0, lat: 0 }, Node { id: 1, lon: 5, lat: 5 }],
    };
    assert_eq!(err_of(dup.to_graph()), GraphError::InvariantViolation);
}
