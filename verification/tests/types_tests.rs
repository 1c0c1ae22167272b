use graph_generation_language::types::{attrs_lookup, Attr, Edge, Graph, MetadataValue, Node};

#[test]
fn test_node_builder() {
    let node = Node::new("test".to_string())
        .with_type("person".to_string())
        .with_metadata("age".to_string(), MetadataValue::Integer(30))
        .with_position((10.0f64).to_bits(), (20.0f64).to_bits());

    assert_eq!(node.id, "test");
    assert_eq!(node.node_type, "person");
    assert_eq!(f64::from_bits(node.x_bits), 10.0);
    assert_eq!(f64::from_bits(node.y_bits), 20.0);
    assert_eq!(node.metadata.len(), 1);
    assert!(matches!(
        attrs_lookup(&node.metadata, &"age".to_string()),
        Some(MetadataValue::Integer(30))
    ));
}

#[test]
fn test_edge_builder() {
    let edge = Edge::new("e1".to_string(), "n1".to_string(), "n2".to_string())
        .with_type("friend".to_string())
        .with_metadata("weight".to_string(), MetadataValue::Float((1.0f64).to_bits()));

    assert_eq!(edge.id, "e1");
    assert_eq!(edge.source, "n1");
    assert_eq!(edge.target, "n2");
    assert_eq!(edge.edge_type, "friend");
    assert_eq!(edge.metadata.len(), 1);
    let w = attrs_lookup(&edge.metadata, &"weight".to_string());
    match w {
        Some(MetadataValue::Float(bits)) => assert_eq!(f64::from_bits(*bits), 1.0),
        _ => panic!("weight should be a float"),
    }
}

#[test]
fn test_graph_operations() {
    let mut graph = Graph::new();

    let node1 = Node::new("n1".to_string());
    let node2 = Node::new("n2".to_string());
    graph.add_node(node1);
    graph.add_node(node2);

    let edge = Edge::new("e1".to_string(), "n1".to_string(), "n2".to_string());
    graph.add_edge(edge);

    assert_eq!(graph.node_count(), 2);
    assert_eq!(graph.edge_count(), 1);

    graph.remove_node(&"n1".to_string());
    assert_eq!(graph.node_count(), 1);
    assert_eq!(graph.edge_count(), 0);
}

#[test]
fn cascading_delete_spares_unrelated_edges() {
    let mut graph = Graph::new();
    graph.add_node(Node::new("a".to_string()));
    graph.add_node(Node::new("b".to_string()));
    graph.add_node(Node::new("c".to_string()));
    graph.add_edge(Edge::new("ab".to_string(), "a".to_string(), "b".to_string()));
    graph.add_edge(Edge::new("ba".to_string(), "b".to_string(), "a".to_string()));
    graph.add_edge(Edge::new("bc".to_string(), "b".to_string(), "c".to_string()));
    assert_eq!(graph.edge_count(), 3);

    graph.remove_node(&"a".to_string());
    // Both edges incident to "a" are gone, in either direction; "bc" stays.
    assert_eq!(graph.node_count(), 2);
    assert_eq!(graph.edge_count(), 1);
    assert!(graph.get_edge(&"ab".to_string()).is_none());
    assert!(graph.get_edge(&"ba".to_string()).is_none());
    assert!(graph.get_edge(&"bc".to_string()).is_some());
}

#[test]
fn add_node_overwrites_by_id() {
    let mut graph = Graph::new();
    graph.add_node(Node::new("n".to_string()).with_type("first".to_string()));
    graph.add_node(Node::new("n".to_string()).with_type("second".to_string()));
    assert_eq!(graph.node_count(), 1);
    assert_eq!(graph.get_node(&"n".to_string()).unwrap().node_type, "second");
}

#[test]
fn integer_and_float_metadata_are_distinct() {
    // Equality is variant-sensitive: an integer 30 and a float 30.0 differ.
    let node = Node::new("n".to_string())
        .with_metadata("v".to_string(), MetadataValue::Integer(30));
    match attrs_lookup(&node.metadata, &"v".to_string()) {
        Some(MetadataValue::Integer(30)) => {}
        _ => panic!("expected the integer variant"),
    }
    let node2 = Node::new("m".to_string())
        .with_metadata("v".to_string(), MetadataValue::Float((30.0f64).to_bits()));
    match attrs_lookup(&node2.metadata, &"v".to_string()) {
        Some(MetadataValue::Float(_)) => {}
        _ => panic!("expected the float variant"),
    }
}

#[test]
fn edges_may_reference_missing_nodes() {
    // The store deliberately tolerates edges whose endpoints do not exist.
    let mut graph = Graph::new();
    graph.add_edge(Edge::new("e".to_string(), "ghost1".to_string(), "ghost2".to_string()));
    assert_eq!(graph.node_count(), 0);
    assert_eq!(graph.edge_count(), 1);
}
