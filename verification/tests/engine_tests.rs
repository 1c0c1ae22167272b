use graph_generation_language::engine::{
    ApplyStatement, GGLEngine, GGLStatement, GenerateStatement, RuleDefStatement,
};
use graph_generation_language::pattern::{NodeDeclaration, Pattern};
use graph_generation_language::types::{attrs_lookup, Attr, MetadataValue};

fn node_decl(id: &str, node_type: Option<&str>, attributes: Vec<Attr>) -> NodeDeclaration {
    NodeDeclaration {
        id: id.to_string(),
        node_type: node_type.map(|t| t.to_string()),
        attributes,
    }
}

fn int_attr(key: &str, value: i64) -> Attr {
    Attr { key: key.to_string(), value: MetadataValue::Integer(value) }
}

#[test]
fn declarations_build_the_graph() {
    let mut engine = GGLEngine::new();
    let program = vec![
        GGLStatement::NodeDecl(node_decl("alice", Some("person"), vec![int_attr("age", 30)])),
        GGLStatement::NodeDecl(node_decl("bob", Some("person"), vec![int_attr("age", 25)])),
        GGLStatement::EdgeDecl(graph_generation_language::pattern::EdgeDeclaration {
            id: "friendship".to_string(),
            source: "alice".to_string(),
            target: "bob".to_string(),
            directed: false,
            attributes: vec![],
        }),
    ];
    engine.run_program(program).unwrap();
    assert_eq!(engine.graph.node_count(), 2);
    assert_eq!(engine.graph.edge_count(), 1);
    let alice = engine.graph.get_node(&"alice".to_string()).unwrap();
    assert_eq!(alice.node_type, "person");
}

#[test]
fn person_rule_scenario() {
    // Two typed nodes and a rule whose left-hand side matches any person;
    // the rule's right-hand side names the same template id, so both nodes
    // are preserved: two nodes, no edges, original attributes kept. The
    // template's extra attribute is not reapplied to a preserved node.
    let mut engine = GGLEngine::new();
    let program = vec![
        GGLStatement::NodeDecl(node_decl("alice", Some("person"), vec![int_attr("age", 30)])),
        GGLStatement::NodeDecl(node_decl("bob", Some("person"), vec![int_attr("age", 25)])),
        GGLStatement::RuleDefStmt(RuleDefStatement {
            name: "add_metadata".to_string(),
            lhs: Pattern { nodes: vec![node_decl("N", Some("person"), vec![])], edges: vec![] },
            rhs: Pattern {
                nodes: vec![node_decl(
                    "N",
                    Some("person"),
                    vec![Attr { key: "active".to_string(), value: MetadataValue::Boolean(true) }],
                )],
                edges: vec![],
            },
        }),
        GGLStatement::ApplyRuleStmt(ApplyStatement {
            rule_name: "add_metadata".to_string(),
            iterations: 1,
        }),
    ];
    engine.run_program(program).unwrap();
    assert_eq!(engine.graph.node_count(), 2);
    assert_eq!(engine.graph.edge_count(), 0);
    let alice = engine.graph.get_node(&"alice".to_string()).unwrap();
    assert!(matches!(
        attrs_lookup(&alice.metadata, &"age".to_string()),
        Some(MetadataValue::Integer(30))
    ));
    let bob = engine.graph.get_node(&"bob".to_string()).unwrap();
    assert!(matches!(
        attrs_lookup(&bob.metadata, &"age".to_string()),
        Some(MetadataValue::Integer(25))
    ));
    // Preserved nodes keep their attribute set as it was.
    assert!(attrs_lookup(&alice.metadata, &"active".to_string()).is_none());
    assert!(attrs_lookup(&bob.metadata, &"active".to_string()).is_none());
}

#[test]
fn typed_rewrite_leaves_other_types_untouched() {
    // A rule matching only type A; the type-C node is untouched, and the
    // matched node is preserved under its own identity and type.
    let mut engine = GGLEngine::new();
    let program = vec![
        GGLStatement::NodeDecl(node_decl("n1", Some("A"), vec![])),
        GGLStatement::NodeDecl(node_decl("n2", Some("C"), vec![])),
        GGLStatement::RuleDefStmt(RuleDefStatement {
            name: "retype".to_string(),
            lhs: Pattern { nodes: vec![node_decl("N", Some("A"), vec![])], edges: vec![] },
            rhs: Pattern { nodes: vec![node_decl("N", Some("B"), vec![])], edges: vec![] },
        }),
        GGLStatement::ApplyRuleStmt(ApplyStatement {
            rule_name: "retype".to_string(),
            iterations: 1,
        }),
    ];
    engine.run_program(program).unwrap();
    assert_eq!(engine.graph.node_count(), 2);
    let n2 = engine.graph.get_node(&"n2".to_string()).unwrap();
    assert_eq!(n2.node_type, "C");
    let n1 = engine.graph.get_node(&"n1".to_string()).unwrap();
    assert_eq!(n1.node_type, "A");
}

#[test]
fn generate_statement_merges_the_fragment() {
    let mut engine = GGLEngine::new();
    let program = vec![
        GGLStatement::NodeDecl(node_decl("hub", None, vec![])),
        GGLStatement::GenerateStmt(GenerateStatement {
            name: "complete".to_string(),
            params: vec![
                int_attr("nodes", 4),
                Attr {
                    key: "prefix".to_string(),
                    value: MetadataValue::Text("user".to_string()),
                },
            ],
        }),
    ];
    engine.run_program(program).unwrap();
    assert_eq!(engine.graph.node_count(), 5); // hub plus user0..user3
    assert_eq!(engine.graph.edge_count(), 6);
}

#[test]
fn unknown_generator_is_an_error() {
    let mut engine = GGLEngine::new();
    let program = vec![GGLStatement::GenerateStmt(GenerateStatement {
        name: "mystery".to_string(),
        params: vec![],
    })];
    let err = engine.run_program(program).unwrap_err();
    assert!(err.contains("Unknown generator: mystery"));
}

#[test]
fn generator_error_is_reported() {
    let mut engine = GGLEngine::new();
    let program = vec![GGLStatement::GenerateStmt(GenerateStatement {
        name: "complete".to_string(),
        params: vec![],
    })];
    let err = engine.run_program(program).unwrap_err();
    assert!(err.contains("Generator error:"));
    assert!(err.contains("nodes"));
}

#[test]
fn unknown_rule_is_an_error() {
    let mut engine = GGLEngine::new();
    let program = vec![GGLStatement::ApplyRuleStmt(ApplyStatement {
        rule_name: "missing".to_string(),
        iterations: 1,
    })];
    let err = engine.run_program(program).unwrap_err();
    assert!(err.contains("Unknown rule: missing"));
}

#[test]
fn rule_application_error_keeps_prior_state() {
    // The failing statement aborts the program, but mutations made by the
    // earlier statements are kept (no rollback).
    let mut engine = GGLEngine::new();
    let program = vec![
        GGLStatement::NodeDecl(node_decl("a", None, vec![])),
        GGLStatement::RuleDefStmt(RuleDefStatement {
            name: "broken".to_string(),
            lhs: Pattern {
                nodes: vec![node_decl("N", None, vec![])],
                edges: vec![graph_generation_language::pattern::EdgeDeclaration {
                    id: "e".to_string(),
                    source: "N".to_string(),
                    target: "unbound".to_string(),
                    directed: true,
                    attributes: vec![],
                }],
            },
            rhs: Pattern { nodes: vec![], edges: vec![] },
        }),
        GGLStatement::ApplyRuleStmt(ApplyStatement {
            rule_name: "broken".to_string(),
            iterations: 1,
        }),
    ];
    let err = engine.run_program(program).unwrap_err();
    assert!(err.contains("Rule application error:"));
    assert_eq!(engine.graph.node_count(), 1);
}

#[test]
fn rule_redefinition_overwrites() {
    let mut engine = GGLEngine::new();
    let program = vec![
        GGLStatement::NodeDecl(node_decl("x", Some("A"), vec![])),
        GGLStatement::RuleDefStmt(RuleDefStatement {
            name: "r".to_string(),
            lhs: Pattern { nodes: vec![node_decl("N", Some("A"), vec![])], edges: vec![] },
            rhs: Pattern { nodes: vec![], edges: vec![] },
        }),
        // Re-registration under the same name replaces the rule: the second
        // version matches nothing, so applying it changes nothing.
        GGLStatement::RuleDefStmt(RuleDefStatement {
            name: "r".to_string(),
            lhs: Pattern { nodes: vec![node_decl("N", Some("Z"), vec![])], edges: vec![] },
            rhs: Pattern { nodes: vec![], edges: vec![] },
        }),
        GGLStatement::ApplyRuleStmt(ApplyStatement { rule_name: "r".to_string(), iterations: 3 }),
    ];
    engine.run_program(program).unwrap();
    assert_eq!(engine.graph.node_count(), 1);
}

#[test]
fn run_program_resets_previous_state() {
    let mut engine = GGLEngine::new();
    let first = vec![GGLStatement::NodeDecl(node_decl("old", None, vec![]))];
    engine.run_program(first).unwrap();
    assert_eq!(engine.graph.node_count(), 1);
    let second = vec![GGLStatement::NodeDecl(node_decl("fresh", None, vec![]))];
    engine.run_program(second).unwrap();
    assert_eq!(engine.graph.node_count(), 1);
    assert!(engine.graph.get_node(&"old".to_string()).is_none());
    assert!(engine.graph.get_node(&"fresh".to_string()).is_some());
}
