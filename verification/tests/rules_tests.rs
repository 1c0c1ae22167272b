use graph_generation_language::pattern::{EdgeDeclaration, NodeDeclaration, Pattern};
use graph_generation_language::rules::Rule;
use graph_generation_language::types::{attrs_lookup, Attr, Graph, MetadataValue, Node};

fn node_template(id: &str, node_type: Option<&str>, attributes: Vec<Attr>) -> NodeDeclaration {
    NodeDeclaration {
        id: id.to_string(),
        node_type: node_type.map(|t| t.to_string()),
        attributes,
    }
}

fn edge_template(id: &str, source: &str, target: &str) -> EdgeDeclaration {
    EdgeDeclaration {
        id: id.to_string(),
        source: source.to_string(),
        target: target.to_string(),
        directed: true,
        attributes: vec![],
    }
}

#[test]
fn test_simple_rule() {
    // A rule that replaces a single node with two connected nodes.
    let rule = Rule {
        name: "split".to_string(),
        lhs: Pattern { nodes: vec![node_template("A", None, vec![])], edges: vec![] },
        rhs: Pattern {
            nodes: vec![node_template("B1", None, vec![]), node_template("B2", None, vec![])],
            edges: vec![edge_template("e", "B1", "B2")],
        },
    };

    let mut graph = Graph::new();
    graph.add_node(Node::new("n1".to_string()));

    rule.apply(&mut graph, 1).unwrap();

    assert_eq!(graph.node_count(), 2);
    assert_eq!(graph.edge_count(), 1);
}

#[test]
fn test_typed_node_rule() {
    // A rule that matches nodes by type. A matched node is preserved with
    // its identity, and the right-hand template's type is not reapplied to
    // a preserved node; the type-C node is untouched either way.
    let rule = Rule {
        name: "type_match".to_string(),
        lhs: Pattern { nodes: vec![node_template("N", Some("A"), vec![])], edges: vec![] },
        rhs: Pattern { nodes: vec![node_template("N", Some("B"), vec![])], edges: vec![] },
    };

    let mut graph = Graph::new();
    graph.add_node(Node::new("n1".to_string()).with_type("A".to_string()));
    graph.add_node(Node::new("n2".to_string()).with_type("C".to_string()));

    rule.apply(&mut graph, 1).unwrap();

    assert!(graph.get_node(&"n1".to_string()).unwrap().node_type == "A");
    assert!(graph.get_node(&"n2".to_string()).unwrap().node_type == "C");
}

#[test]
fn rule_without_matches_changes_nothing() {
    // A rule whose left-hand side has no match leaves the graph unchanged,
    // whatever the iteration budget.
    let rule = Rule {
        name: "noop".to_string(),
        lhs: Pattern { nodes: vec![node_template("N", Some("missing"), vec![])], edges: vec![] },
        rhs: Pattern { nodes: vec![], edges: vec![] },
    };

    let mut graph = Graph::new();
    graph.add_node(
        Node::new("n1".to_string())
            .with_type("person".to_string())
            .with_metadata("age".to_string(), MetadataValue::Integer(30)),
    );
    graph.add_node(Node::new("n2".to_string()));

    rule.apply(&mut graph, 25).unwrap();

    assert_eq!(graph.node_count(), 2);
    assert_eq!(graph.edge_count(), 0);
    let n1 = graph.get_node(&"n1".to_string()).unwrap();
    assert_eq!(n1.node_type, "person");
    assert!(matches!(
        attrs_lookup(&n1.metadata, &"age".to_string()),
        Some(MetadataValue::Integer(30))
    ));
}

#[test]
fn matches_of_one_pass_are_node_disjoint() {
    // With a single-template pattern every graph node anchors at most one
    // match, and no two matches of a pass share a graph node.
    let rule = Rule {
        name: "each".to_string(),
        lhs: Pattern { nodes: vec![node_template("N", None, vec![])], edges: vec![] },
        rhs: Pattern { nodes: vec![node_template("N", None, vec![])], edges: vec![] },
    };

    let mut graph = Graph::new();
    graph.add_node(Node::new("a".to_string()));
    graph.add_node(Node::new("b".to_string()));
    graph.add_node(Node::new("c".to_string()));

    let matches = rule.find_matches(&graph).unwrap();
    assert_eq!(matches.len(), 3);
    let mut seen: Vec<String> = vec![];
    for m in &matches {
        assert_eq!(m.node_mapping.len(), 1);
        let bound = m.node_mapping[0].value.clone();
        assert!(!seen.contains(&bound));
        seen.push(bound);
    }
}

#[test]
fn attribute_constraints_filter_matches() {
    let rule = Rule {
        name: "adults".to_string(),
        lhs: Pattern {
            nodes: vec![node_template(
                "N",
                Some("person"),
                vec![Attr { key: "age".to_string(), value: MetadataValue::Integer(30) }],
            )],
            edges: vec![],
        },
        rhs: Pattern { nodes: vec![node_template("N", Some("person"), vec![])], edges: vec![] },
    };

    let mut graph = Graph::new();
    graph.add_node(
        Node::new("alice".to_string())
            .with_type("person".to_string())
            .with_metadata("age".to_string(), MetadataValue::Integer(30)),
    );
    graph.add_node(
        Node::new("bob".to_string())
            .with_type("person".to_string())
            .with_metadata("age".to_string(), MetadataValue::Integer(25)),
    );

    let matches = rule.find_matches(&graph).unwrap();
    assert_eq!(matches.len(), 1);
    assert_eq!(matches[0].node_mapping[0].value, "alice");
}

#[test]
fn unbound_edge_endpoint_is_an_error() {
    // An edge template referencing a node template id absent from the
    // pattern's node templates is a malformed rule, not a non-match.
    let rule = Rule {
        name: "broken".to_string(),
        lhs: Pattern {
            nodes: vec![node_template("N", None, vec![])],
            edges: vec![edge_template("e", "N", "missing")],
        },
        rhs: Pattern { nodes: vec![], edges: vec![] },
    };

    let mut graph = Graph::new();
    graph.add_node(Node::new("a".to_string()));
    graph.add_node(Node::new("b".to_string()));
    graph.add_edge(graph_generation_language::types::Edge::new(
        "ab".to_string(),
        "a".to_string(),
        "b".to_string(),
    ));

    let err = rule.apply(&mut graph, 1).unwrap_err();
    assert!(err.contains("Invalid target node in pattern"));
}

#[test]
fn deleted_nodes_cascade_their_edges() {
    // A node present on the left-hand side but absent from the right-hand
    // side is removed, and its incident edges go with it.
    let rule = Rule {
        name: "drop_b".to_string(),
        lhs: Pattern { nodes: vec![node_template("N", Some("B"), vec![])], edges: vec![] },
        rhs: Pattern { nodes: vec![], edges: vec![] },
    };

    let mut graph = Graph::new();
    graph.add_node(Node::new("a".to_string()).with_type("A".to_string()));
    graph.add_node(Node::new("b".to_string()).with_type("B".to_string()));
    graph.add_edge(graph_generation_language::types::Edge::new(
        "ab".to_string(),
        "a".to_string(),
        "b".to_string(),
    ));

    rule.apply(&mut graph, 1).unwrap();

    assert_eq!(graph.node_count(), 1);
    assert_eq!(graph.edge_count(), 0);
    assert!(graph.get_node(&"a".to_string()).is_some());
}

#[test]
fn edge_pattern_match_consumes_the_edge() {
    // A two-node pattern with one edge template binds nodes and the edge.
    let rule = Rule {
        name: "pair".to_string(),
        lhs: Pattern {
            nodes: vec![node_template("X", None, vec![]), node_template("Y", None, vec![])],
            edges: vec![edge_template("e", "X", "Y")],
        },
        rhs: Pattern {
            nodes: vec![node_template("X", None, vec![]), node_template("Y", None, vec![])],
            edges: vec![],
        },
    };

    let mut graph = Graph::new();
    graph.add_node(Node::new("a".to_string()));
    graph.add_node(Node::new("b".to_string()));
    graph.add_edge(graph_generation_language::types::Edge::new(
        "ab".to_string(),
        "a".to_string(),
        "b".to_string(),
    ));

    let matches = rule.find_matches(&graph).unwrap();
    assert_eq!(matches.len(), 1);
    assert_eq!(matches[0].edge_mapping.len(), 1);
    assert_eq!(matches[0].edge_mapping[0].value, "ab");
}
