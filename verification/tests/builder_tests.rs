use erouter::builder::{EdgePolicy, GraphBuilder, TagListPolicy, Way};
use erouter::model::Node;
use erouter::GraphError;

/// Extracts the error of a result whose success value has no Debug
/// form.
fn err_of<T>(r: Result<T, GraphError>) -> GraphError {
    match r {
        Err(e) => e,
        Ok(_) => panic!("expected an error"),
    }
}

const DEG: i64 = 1_000_000;

fn motorway_policy() -> TagListPolicy {
    TagListPolicy { allowed: vec![b"motorway".to_vec()] }
}

#[test]
fn rekeying_three_nodes_two_edges() {
    // One valid way over three external identifiers yields exactly
    // two edges and three nodes, all indices in range.
    let ways = vec![Way { highway_tag: b"motorway".to_vec(), nodes: vec![100, 200, 300] }];
    let records = vec![
        Node { id: 100, lon: 0, lat: 0 },
        Node { id: 200, lon: DEG, lat: 0 },
        Node { id: 300, lon: DEG, lat: DEG },
    ];
    let sg = GraphBuilder::build_from_pbf(&ways, &records, &motorway_policy()).unwrap();
    assert_eq!(sg.nodes.len(), 3);
    assert_eq!(sg.edges.len(), 2);
    for e in sg.edges.iter() {
        assert!(e.source < sg.nodes.len());
        assert!(e.target < sg.nodes.len());
        assert_eq!(e.weight, 1);
        assert_eq!(e.highway_tag, b"motorway".to_vec());
    }
    assert_eq!(sg.edges[0].source, 0);
    assert_eq!(sg.edges[0].target, 1);
    assert_eq!(sg.edges[1].source, 1);
    assert_eq!(sg.edges[1].target, 2);
    assert!(sg.is_wf());
}

#[test]
fn invalid_tags_are_filtered() {
    let ways = vec![
        Way { highway_tag: b"footpath".to_vec(), nodes: vec![100, 200] },
        Way { highway_tag: b"motorway".to_vec(), nodes: vec![200, 300] },
    ];
    let records = vec![
        Node { id: 100, lon: 0, lat: 0 },
        Node { id: 200, lon: DEG, lat: 0 },
        Node { id: 300, lon: DEG, lat: DEG },
    ];
    let sg = GraphBuilder::build_from_pbf(&ways, &records, &motorway_policy()).unwrap();
    // Node 100 only appears on the filtered way, so it is not
    // materialized.
    assert_eq!(sg.nodes.len(), 2);
    assert_eq!(sg.edges.len(), 1);
    assert_eq!(sg.nodes[0].id, 200);
    assert_eq!(sg.nodes[1].id, 300);
}

#[test]
fn unmaterialized_endpoint_fails_the_build() {
    // The way references identifier 300 but no record carries it:
    // the inconsistency is fatal, not silently dropped.
    let ways = vec![Way { highway_tag: b"motorway".to_vec(), nodes: vec![100, 300] }];
    let records = vec![Node { id: 100, lon: 0, lat: 0 }];
    let r = GraphBuilder::build_from_pbf(&ways, &records, &motorway_policy());
    assert_eq!(err_of(r), GraphError::InvariantViolation);
}

#[test]
fn bad_coordinates_fail_the_build() {
    let ways = vec![Way { highway_tag: b"motorway".to_vec(), nodes: vec![100, 200] }];
    let records = vec![
        Node { id: 100, lon: 0, lat: 0 },
        Node { id: 200, lon: 200 * DEG, lat: 0 },
    ];
    let r = GraphBuilder::build_from_pbf(&ways, &records, &motorway_policy());
    assert_eq!(err_of(r), GraphError::SourceFormat);
}

#[test]
fn duplicate_records_keep_first_occurrence() {
    let ways = vec![Way { highway_tag: b"motorway".to_vec(), nodes: vec![100, 200] }];
    let records = vec![
        Node { id: 100, lon: 0, lat: 0 },
        Node { id: 200, lon: DEG, lat: 0 },
        Node { id: 100, lon: 5 * DEG, lat: 5 * DEG },
    ];
    let sg = GraphBuilder::build_from_pbf(&ways, &records, &motorway_policy()).unwrap();
    assert_eq!(sg.nodes.len(), 2);
    assert_eq!(sg.nodes[0], Node { id: 100, lon: 0, lat: 0 });
}

#[test]
fn irrelevant_records_are_skipped() {
    let ways = vec![Way { highway_tag: b"motorway".to_vec(), nodes: vec![100, 200] }];
    let records = vec![
        Node { id: 999, lon: 3 * DEG, lat: 3 * DEG },
        Node { id: 100, lon: 0, lat: 0 },
        Node { id: 200, lon: DEG, lat: 0 },
    ];
    let sg = GraphBuilder::build_from_pbf(&ways, &records, &motorway_policy()).unwrap();
    assert_eq!(sg.nodes.len(), 2);
    // Dense indices follow first-seen order of the record stream.
    assert_eq!(sg.nodes[0].id, 100);
    assert_eq!(sg.nodes[1].id, 200);
}

#[test]
fn short_ways_make_no_edges() {
    let ways = vec![
        Way { highway_tag: b"motorway".to_vec(), nodes: vec![100] },
        Way { highway_tag: b"motorway".to_vec(), nodes: Vec::new() },
    ];
    let records = vec![Node { id: 100, lon: 0, lat: 0 }];
    let sg = GraphBuilder::build_from_pbf(&ways, &records, &motorway_policy()).unwrap();
    assert_eq!(sg.nodes.len(), 0);
    assert_eq!(sg.edges.len(), 0);
}

#[test]
fn tag_list_policy_decides_by_content() {
    let p = TagListPolicy { allowed: vec![b"cycleway".to_vec(), b"path".to_vec()] };
    assert!(p.is_valid(&b"path".to_vec()));
    assert!(!p.is_valid(&b"pathway".to_vec()));
    let a = Node { id: 1, lon: 0, lat: 0 };
    let b = Node { id: 2, lon: DEG, lat: DEG };
    assert_eq!(p.weight(&b"path".to_vec(), &a, &b), 1);
}
