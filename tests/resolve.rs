use upgrade_path::graph::{ConditionalEdge, Edge, Graph, Node, Risk, UpgradeResult};
use upgrade_path::resolve::{Resolution, ResolveError};

fn node(version: &str, payload: Option<&str>) -> Node {
    Node { version: version.to_string(), payload: payload.map(|p| p.to_string()), metadata: None }
}

fn cond(pairs: &[(&str, &str)], risks: Vec<Risk>) -> ConditionalEdge {
    ConditionalEdge {
        edges: pairs.iter().map(|(f, t)| Edge { from: f.to_string(), to: t.to_string() }).collect(),
        risks,
    }
}

fn risk(name: &str, message: &str) -> Risk {
    Risk { url: "https://example.com/risk".to_string(), name: name.to_string(), message: message.to_string() }
}

fn resolve(g: &Graph, from: &str, to: &str) -> Result<Resolution, ResolveError> {
    g.get_upgrade_path(&from.to_string(), &to.to_string())
}

fn images(r: Result<Resolution, ResolveError>) -> Vec<(String, String)> {
    match r {
        Ok(Resolution::Path { images, .. }) => images.into_iter().map(|u| (u.version, u.image)).collect(),
        other => panic!("expected a path, got {:?}", other),
    }
}

fn pair(v: &str, i: &str) -> (String, String) {
    (v.to_string(), i.to_string())
}

fn trivial_graph(payload: Option<&str>) -> Graph {
    Graph {
        nodes: vec![node("4.10.0", Some("img-4.10.0")), node("4.11.0", payload)],
        edges: vec![(0, 1)],
        conditional_edges: vec![cond(&[("4.10.0", "4.11.0")], vec![])],
    }
}

#[test]
fn trivial_graph_round_trip() {
    let g = trivial_graph(Some("quay.io/release:4.11.0"));
    assert_eq!(images(resolve(&g, "4.10.0", "4.11.0")), vec![pair("4.11.0", "quay.io/release:4.11.0")]);
}

#[test]
fn trivial_graph_reports_stepping_stone_and_head() {
    let g = trivial_graph(Some("img"));
    match resolve(&g, "4.10.0", "4.11.0") {
        Ok(Resolution::Path { stepping_stone, head, risks, .. }) => {
            assert_eq!(stepping_stone, "4.11.0");
            assert_eq!(head, "4.11.0");
            assert!(risks.is_empty());
        }
        other => panic!("unexpected {:?}", other),
    }
}

#[test]
fn same_input_same_output() {
    let g = ordering_graph();
    let a = images(resolve(&g, "4.8.0", "4.12.0"));
    let b = images(resolve(&g, "4.8.0", "4.12.0"));
    assert_eq!(a, b);
}

#[test]
fn no_conditional_edge_gives_no_path() {
    let g = trivial_graph(Some("img"));
    let r = resolve(&g, "4.11.0", "4.12.0").unwrap();
    assert!(matches!(r, Resolution::NoPath));
    assert_eq!(r.records(), vec![UpgradeResult { version: String::new(), image: String::new() }]);
}

#[test]
fn empty_graph_gives_no_path() {
    let g = Graph::new();
    assert!(matches!(resolve(&g, "4.10.0", "4.11.0"), Ok(Resolution::NoPath)));
}

#[test]
fn path_records_are_the_images() {
    let g = trivial_graph(Some("img-b"));
    let r = resolve(&g, "4.10.0", "4.11.0").unwrap();
    assert_eq!(r.records(), vec![UpgradeResult { version: "4.11.0".to_string(), image: "img-b".to_string() }]);
}

/// Nodes out of version order; stepping stone 4.10.0 (4.9.0 would win as text).
fn ordering_graph() -> Graph {
    Graph {
        nodes: vec![
            node("4.11.0", Some("img-11")),
            node("4.10.0", Some("img-10")),
            node("4.9.0", Some("img-9")),
            node("4.12.0", Some("img-12")),
        ],
        edges: vec![(1, 0), (1, 2)],
        conditional_edges: vec![cond(&[("4.8.0", "4.9.0"), ("4.8.0", "4.10.0")], vec![])],
    }
}

#[test]
fn result_is_ordered_by_semantic_version() {
    let g = ordering_graph();
    assert_eq!(
        images(resolve(&g, "4.8.0", "4.12.0")),
        vec![pair("4.9.0", "img-9"), pair("4.10.0", "img-10"), pair("4.11.0", "img-11")]
    );
}

#[test]
fn stepping_stone_is_highest_semantic_version() {
    let g = ordering_graph();
    match resolve(&g, "4.8.0", "4.12.0") {
        Ok(Resolution::Path { stepping_stone, head, .. }) => {
            assert_eq!(stepping_stone, "4.10.0");
            assert_eq!(head, "4.12.0");
        }
        other => panic!("unexpected {:?}", other),
    }
}

#[test]
fn prerelease_orders_before_release() {
    let g = Graph {
        nodes: vec![node("4.10.0", None), node("4.11.0", Some("b")), node("4.11.0-rc.1", Some("a"))],
        edges: vec![(1, 2)],
        conditional_edges: vec![cond(&[("4.10.0", "4.11.0-rc.1"), ("4.10.0", "4.11.0")], vec![])],
    };
    assert_eq!(images(resolve(&g, "4.10.0", "4.11.0")), vec![pair("4.11.0-rc.1", "a"), pair("4.11.0", "b")]);
}

#[test]
fn intermediates_with_edge_to_head_are_pruned() {
    let g = Graph {
        nodes: vec![
            node("4.10.0", Some("img-10")),
            node("4.11.0", Some("img-11")),
            node("4.12.0", Some("img-12")),
            node("4.13.0", Some("img-13")),
        ],
        edges: vec![(0, 1), (1, 2), (1, 3), (2, 3)],
        conditional_edges: vec![cond(&[("4.10.0", "4.11.0")], vec![])],
    };
    assert_eq!(images(resolve(&g, "4.10.0", "4.13.0")), vec![pair("4.13.0", "img-13")]);
}

#[test]
fn pruning_is_one_hop_only() {
    let g = Graph {
        nodes: vec![
            node("4.10.0", Some("img-10")),
            node("4.11.0", Some("img-11")),
            node("4.12.0", Some("img-12")),
            node("4.13.0", Some("img-13")),
        ],
        edges: vec![(1, 2), (2, 3)],
        conditional_edges: vec![cond(&[("4.10.0", "4.11.0")], vec![])],
    };
    assert_eq!(images(resolve(&g, "4.10.0", "4.13.0")), vec![pair("4.11.0", "img-11")]);
}

#[test]
fn node_without_payload_is_skipped() {
    let g = trivial_graph(None);
    assert_eq!(images(resolve(&g, "4.10.0", "4.11.0")), Vec::<(String, String)>::new());
}

#[test]
fn repeated_intermediate_appears_once() {
    let g = Graph {
        nodes: vec![
            node("4.10.0", None),
            node("4.11.0", Some("img-11")),
            node("4.12.0", Some("img-12")),
            node("4.13.0", Some("img-13")),
        ],
        edges: vec![(1, 1), (1, 2)],
        conditional_edges: vec![cond(&[("4.10.0", "4.11.0")], vec![]), cond(&[("4.10.0", "4.11.0")], vec![])],
    };
    assert_eq!(images(resolve(&g, "4.10.0", "4.13.0")), vec![pair("4.11.0", "img-11"), pair("4.12.0", "img-12")]);
}

#[test]
fn risks_of_the_taken_edge_are_surfaced() {
    let g = Graph {
        nodes: vec![node("4.10.0", None), node("4.11.0", Some("i11")), node("4.12.0", Some("i12"))],
        edges: vec![],
        conditional_edges: vec![
            cond(&[("4.10.0", "4.11.0")], vec![risk("OtherRisk", "not on the taken edge")]),
            cond(&[("4.10.0", "4.12.0")], vec![risk("ExamplePauseRisk", "pause before upgrading")]),
        ],
    };
    match resolve(&g, "4.10.0", "4.12.0") {
        Ok(Resolution::Path { stepping_stone, risks, .. }) => {
            assert_eq!(stepping_stone, "4.12.0");
            assert_eq!(risks.len(), 1);
            assert_eq!(risks[0].name, "ExamplePauseRisk");
            assert_eq!(risks[0].message, "pause before upgrading");
        }
        other => panic!("unexpected {:?}", other),
    }
}

#[test]
fn malformed_node_version_is_invalid_version() {
    let g = Graph {
        nodes: vec![node("4.10.0", None), node("not-a-version", None), node("4.11.0", Some("img"))],
        edges: vec![(0, 2)],
        conditional_edges: vec![cond(&[("4.10.0", "4.11.0")], vec![])],
    };
    assert_eq!(resolve(&g, "4.10.0", "4.11.0").unwrap_err(), ResolveError::InvalidVersion);
}

#[test]
fn malformed_conditional_target_is_invalid_version() {
    let g = Graph {
        nodes: vec![node("4.10.0", None)],
        edges: vec![],
        conditional_edges: vec![cond(&[("4.10.0", "4.11")], vec![])],
    };
    assert_eq!(resolve(&g, "4.10.0", "4.11.0").unwrap_err(), ResolveError::InvalidVersion);
}

#[test]
fn missing_pivot_is_node_not_found() {
    let g = Graph {
        nodes: vec![node("4.10.0", None)],
        edges: vec![],
        conditional_edges: vec![cond(&[("4.10.0", "4.11.0")], vec![])],
    };
    assert_eq!(resolve(&g, "4.10.0", "4.12.0").unwrap_err(), ResolveError::NodeNotFound);
}

#[test]
fn stepping_stone_without_node_is_node_not_found() {
    let g = Graph {
        nodes: vec![node("4.10.0", None), node("4.12.0", Some("img"))],
        edges: vec![(0, 1)],
        conditional_edges: vec![cond(&[("4.10.0", "4.11.0")], vec![])],
    };
    assert_eq!(resolve(&g, "4.10.0", "4.12.0").unwrap_err(), ResolveError::NodeNotFound);
}

#[test]
fn edge_to_missing_node_is_node_not_found() {
    let g = Graph {
        nodes: vec![node("4.10.0", None), node("4.11.0", Some("img"))],
        edges: vec![(1, 9)],
        conditional_edges: vec![cond(&[("4.10.0", "4.11.0")], vec![])],
    };
    assert_eq!(resolve(&g, "4.10.0", "4.11.0").unwrap_err(), ResolveError::NodeNotFound);
}

#[test]
fn head_of_empty_graph_is_empty_graph() {
    assert_eq!(Graph::new().head_version().unwrap_err(), ResolveError::EmptyGraph);
}

#[test]
fn head_is_highest_semantic_version() {
    let g = Graph {
        nodes: vec![node("4.9.0", None), node("4.10.0", None), node("4.10.0-rc.2", None)],
        edges: vec![],
        conditional_edges: vec![],
    };
    assert_eq!(g.head_version().unwrap(), "4.10.0");
}

#[test]
fn head_with_malformed_version_is_invalid_version() {
    let g = Graph { nodes: vec![node("4.9", None)], edges: vec![], conditional_edges: vec![] };
    assert_eq!(g.head_version().unwrap_err(), ResolveError::InvalidVersion);
}

#[test]
fn accessors_follow_both_edge_kinds() {
    let g = Graph {
        nodes: vec![node("4.10.0", None), node("4.11.0", None), node("4.11.0", None), node("4.12.0", None)],
        edges: vec![(0, 1), (0, 3), (1, 3)],
        conditional_edges: vec![
            cond(&[("4.10.0", "4.11.0"), ("4.11.0", "4.12.0")], vec![risk("A", "a")]),
            cond(&[("4.10.0", "4.12.0")], vec![risk("B", "b")]),
        ],
    };
    assert_eq!(g.find_node_index(&"4.11.0".to_string()), Some(1));
    assert_eq!(g.find_node_index(&"4.13.0".to_string()), None);
    assert_eq!(g.unconditional_targets(0), Some(vec!["4.11.0".to_string(), "4.12.0".to_string()]));
    assert!(g.has_direct_edge(1, 3));
    assert!(!g.has_direct_edge(3, 1));
    assert_eq!(g.conditional_targets(&"4.10.0".to_string()), vec!["4.11.0".to_string(), "4.12.0".to_string()]);
    let r = g.risks_between(&"4.10.0".to_string(), &"4.12.0".to_string());
    assert_eq!(r, vec![risk("B", "b")]);
}

#[test]
fn images_through_keeps_node_order_and_prunes() {
    let g = Graph {
        nodes: vec![
            node("4.12.0", Some("img-12")),
            node("4.11.0", Some("img-11")),
            node("4.10.0", None),
            node("4.13.0", Some("img-13")),
            node("4.14.0", Some("img-14")),
        ],
        edges: vec![(1, 0), (1, 3), (3, 4)],
        conditional_edges: vec![cond(&[("4.10.0", "4.11.0")], vec![risk("R", "m")])],
    };
    let (found, risks) = g
        .images_through(&"4.10.0".to_string(), &"4.11.0".to_string(), 1, &"4.14.0".to_string())
        .unwrap();
    let found: Vec<(String, String)> = found.into_iter().map(|u| (u.version, u.image)).collect();
    assert_eq!(found, vec![pair("4.12.0", "img-12"), pair("4.11.0", "img-11")]);
    assert_eq!(risks, vec![risk("R", "m")]);
}

#[test]
fn images_through_missing_head_is_node_not_found() {
    let g = trivial_graph(Some("img"));
    let r = g.images_through(&"4.10.0".to_string(), &"4.11.0".to_string(), 1, &"4.99.0".to_string());
    assert_eq!(r.unwrap_err(), ResolveError::NodeNotFound);
}
