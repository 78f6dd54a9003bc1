use expr_node::dot_import::{edge_links, node_id_from_label, EdgeDecl, NodeDecl};

fn decl(id: &str, label: Option<&str>) -> NodeDecl {
    NodeDecl {
        id: id.to_string(),
        attrs: label.map(|l| vec![("label".to_string(), l.to_string())]).unwrap_or_default(),
    }
}

fn sample() -> (Vec<NodeDecl>, Vec<(String, usize)>) {
    let decls = vec![
        decl("A", None),
        decl("B", Some("Node Beee")),
        decl("C", Some("Node C")),
        decl("D", Some("Node D")),
        decl("E", Some("Node E")),
    ];
    let map = ["A", "Node Beee", "Node C", "Node D", "Node E"]
        .iter()
        .enumerate()
        .map(|(i, n)| (n.to_string(), i))
        .collect();
    (decls, map)
}

fn edge(from: &str, to: &[&str]) -> EdgeDecl {
    EdgeDecl { from: from.to_string(), to: to.iter().map(|t| t.to_string()).collect() }
}

#[test]
fn ids_resolve_through_labels() {
    let (decls, map) = sample();
    assert_eq!(node_id_from_label(&decls, &"A".to_string(), &map), Some(0));
    assert_eq!(node_id_from_label(&decls, &"B".to_string(), &map), Some(1));
    assert_eq!(node_id_from_label(&decls, &"Node D".to_string(), &map), Some(3));
    assert_eq!(node_id_from_label(&decls, &"E".to_string(), &map), Some(4));
    assert_eq!(node_id_from_label(&decls, &"Z".to_string(), &map), None);
}

#[test]
fn later_registration_wins() {
    let map = vec![("A".to_string(), 0), ("A".to_string(), 5)];
    assert_eq!(node_id_from_label(&Vec::new(), &"A".to_string(), &map), Some(5));
}

#[test]
fn non_label_attributes_lead_nowhere() {
    let decls = vec![NodeDecl {
        id: "B".to_string(),
        attrs: vec![("color".to_string(), "Node Beee".to_string())],
    }];
    let map = vec![("Node Beee".to_string(), 1)];
    assert_eq!(node_id_from_label(&decls, &"B".to_string(), &map), None);
}

#[test]
fn sample_graph_edges_link_in_order() {
    let (decls, map) = sample();
    let edges = vec![
        edge("A", &["B"]),
        edge("A", &["C"]),
        edge("B", &["D"]),
        edge("C", &["D"]),
        edge("D", &["E"]),
        edge("B", &["E"]),
    ];
    assert_eq!(
        edge_links(&decls, &edges, &map),
        Some(vec![(0, 1), (0, 2), (1, 3), (2, 3), (3, 4), (1, 4)])
    );
    assert_eq!(edge_links(&decls, &vec![edge("A", &["B", "C"])], &map), Some(vec![(0, 1), (0, 2)]));
}

#[test]
fn unknown_endpoint_fails_the_import() {
    let (decls, map) = sample();
    assert_eq!(edge_links(&decls, &vec![edge("A", &["Q"])], &map), None);
    assert_eq!(edge_links(&decls, &vec![edge("Q", &["A"])], &map), None);
    assert_eq!(edge_links(&decls, &Vec::new(), &map), Some(vec![]));
}
