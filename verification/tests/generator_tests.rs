use graph_generation_language::generators::{
    generate_barabasi_albert, generate_complete, generate_cycle, generate_grid, generate_path,
    generate_star, generate_tree, get_generator, GeneratorKind,
};
use graph_generation_language::types::{Attr, MetadataValue};

fn int_param(key: &str, value: i64) -> Attr {
    Attr { key: key.to_string(), value: MetadataValue::Integer(value) }
}

fn bool_param(key: &str, value: bool) -> Attr {
    Attr { key: key.to_string(), value: MetadataValue::Boolean(value) }
}

#[test]
fn test_complete_graph() {
    let params = vec![int_param("nodes", 5)];
    let graph = generate_complete(&params).unwrap();
    assert_eq!(graph.node_count(), 5);
    assert_eq!(graph.edge_count(), 10); // n*(n-1)/2 edges for undirected
}

#[test]
fn test_path_graph() {
    let params = vec![int_param("nodes", 5)];
    let graph = generate_path(&params).unwrap();
    assert_eq!(graph.node_count(), 5);
    assert_eq!(graph.edge_count(), 4); // n-1 edges
}

#[test]
fn test_cycle_graph() {
    let params = vec![int_param("nodes", 5)];
    let graph = generate_cycle(&params).unwrap();
    assert_eq!(graph.node_count(), 5);
    assert_eq!(graph.edge_count(), 5); // n edges
}

#[test]
fn test_grid_graph() {
    let params = vec![int_param("rows", 3), int_param("cols", 4)];
    let graph = generate_grid(&params).unwrap();
    assert_eq!(graph.node_count(), 12); // rows * cols
    assert_eq!(graph.edge_count(), 17); // (rows-1)*cols + rows*(cols-1)
}

#[test]
fn complete_graph_empty_and_single() {
    let graph = generate_complete(&vec![int_param("nodes", 0)]).unwrap();
    assert_eq!(graph.node_count(), 0);
    assert_eq!(graph.edge_count(), 0);
    let graph = generate_complete(&vec![int_param("nodes", 1)]).unwrap();
    assert_eq!(graph.node_count(), 1);
    assert_eq!(graph.edge_count(), 0);
}

#[test]
fn complete_graph_directed() {
    let params = vec![int_param("nodes", 4), bool_param("directed", true)];
    let graph = generate_complete(&params).unwrap();
    assert_eq!(graph.node_count(), 4);
    assert_eq!(graph.edge_count(), 12); // n*(n-1) ordered pairs
}

#[test]
fn path_and_cycle_single_node() {
    let graph = generate_path(&vec![int_param("nodes", 1)]).unwrap();
    assert_eq!(graph.node_count(), 1);
    assert_eq!(graph.edge_count(), 0);
    let graph = generate_cycle(&vec![int_param("nodes", 1)]).unwrap();
    assert_eq!(graph.node_count(), 1);
    assert_eq!(graph.edge_count(), 1); // the self-loop wrap-around
}

#[test]
fn grid_graph_periodic() {
    let params = vec![int_param("rows", 3), int_param("cols", 4), bool_param("periodic", true)];
    let graph = generate_grid(&params).unwrap();
    assert_eq!(graph.node_count(), 12);
    assert_eq!(graph.edge_count(), 24); // 17 plus rows + cols wrap-around edges
}

#[test]
fn star_graph_counts() {
    let graph = generate_star(&vec![int_param("nodes", 6)]).unwrap();
    assert_eq!(graph.node_count(), 6);
    assert_eq!(graph.edge_count(), 5);
    let graph = generate_star(&vec![int_param("nodes", 0)]).unwrap();
    assert_eq!(graph.node_count(), 1); // the center node is always placed
    assert_eq!(graph.edge_count(), 0);
}

#[test]
fn tree_graph_counts() {
    let params = vec![int_param("branching", 2), int_param("depth", 3)];
    let graph = generate_tree(&params).unwrap();
    // A full binary tree of depth 3: 1 + 2 + 4 nodes, one edge per child.
    assert_eq!(graph.node_count(), 7);
    assert_eq!(graph.edge_count(), 6);
}

#[test]
fn barabasi_albert_counts() {
    let params = vec![int_param("nodes", 10), int_param("edges_per_node", 2)];
    let graph = generate_barabasi_albert(&params).unwrap();
    assert_eq!(graph.node_count(), 10);
    // The seed is complete on 3 nodes; each of the 7 others adds 1..=2 edges.
    assert!(graph.edge_count() >= 3 + 7);
    assert!(graph.edge_count() <= 3 + 14);
}

#[test]
fn barabasi_albert_rejects_degenerate_parameters() {
    let params = vec![int_param("nodes", 3), int_param("edges_per_node", 3)];
    let err = generate_barabasi_albert(&params).unwrap_err();
    assert!(err.contains("less than"));
    let params = vec![int_param("nodes", 3), int_param("edges_per_node", 0)];
    let err = generate_barabasi_albert(&params).unwrap_err();
    assert!(err.contains("greater than 0"));
}

#[test]
fn missing_count_parameter_is_an_error() {
    let err = generate_complete(&vec![]).unwrap_err();
    assert!(err.contains("nodes"));
    let err = generate_grid(&vec![int_param("rows", 2)]).unwrap_err();
    assert!(err.contains("cols"));
}

#[test]
fn non_numeric_count_parameter_is_an_error() {
    let params = vec![Attr {
        key: "nodes".to_string(),
        value: MetadataValue::Text("five".to_string()),
    }];
    assert!(generate_complete(&params).is_err());
}

#[test]
fn float_count_parameter_truncates() {
    let params = vec![Attr {
        key: "nodes".to_string(),
        value: MetadataValue::Float((5.9f64).to_bits()),
    }];
    let graph = generate_complete(&params).unwrap();
    assert_eq!(graph.node_count(), 5);
}

#[test]
fn negative_count_parameter_clamps_to_zero() {
    let graph = generate_complete(&vec![int_param("nodes", -3)]).unwrap();
    assert_eq!(graph.node_count(), 0);
    let params = vec![Attr {
        key: "nodes".to_string(),
        value: MetadataValue::Float((-2.5f64).to_bits()),
    }];
    let graph = generate_complete(&params).unwrap();
    assert_eq!(graph.node_count(), 0);
}

#[test]
fn generator_ids_use_the_prefix() {
    let params = vec![
        int_param("nodes", 2),
        Attr { key: "prefix".to_string(), value: MetadataValue::Text("user".to_string()) },
    ];
    let graph = generate_path(&params).unwrap();
    assert!(graph.get_node(&"user0".to_string()).is_some());
    assert!(graph.get_node(&"user1".to_string()).is_some());
    assert!(graph.get_edge(&"e0_1".to_string()).is_some());
}

#[test]
fn generator_lookup_by_name() {
    assert!(matches!(get_generator(&"complete".to_string()), Some(GeneratorKind::Complete)));
    assert!(matches!(get_generator(&"tree".to_string()), Some(GeneratorKind::Tree)));
    assert!(matches!(
        get_generator(&"barabasi_albert".to_string()),
        Some(GeneratorKind::BarabasiAlbert)
    ));
    assert!(get_generator(&"unknown".to_string()).is_none());
}
