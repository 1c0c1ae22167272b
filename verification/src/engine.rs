//! The engine: one graph and one rule registry, driven by a program's
//! statement sequence. Statements are processed strictly in order; an error
//! aborts the rest of the program and keeps every mutation made so far (no
//! rollback).
use vstd::prelude::*;
use crate::types::{
    Attr, AttrV, Edge, EdgeV, Graph, GraphV, Node, NodeV, attrs_clone, attrs_put_all, attrs_view,
    edge_clone, graph_wf, key_index, keys_unique, lemma_key_index, node_clone, put_edge, put_node,
};
use crate::pattern::{EdgeDeclaration, EdgeDeclV, NodeDeclaration, NodeDeclV, Pattern, PatternV};
use crate::rules::{add_nodes, ApplyOutcome, Rule, RuleV, spec_apply};
use crate::generators::{
    GeneratorKind, generate_barabasi_albert, generate_complete, generate_cycle, generate_grid,
    generate_path, generate_star, generate_tree, get_generator, param_bool, param_count,
    param_count_ok, spec_generator_kind, tri_sum,
};

verus! {

// ---------------------------------------------------------------------------
// Statements
// ---------------------------------------------------------------------------

/// A generator invocation: a generator name and its parameter mapping.
pub struct GenerateStatement {
    pub name: String,
    pub params: Vec<Attr>,
}

/// A rule definition: a name, a left-hand pattern, a right-hand pattern.
pub struct RuleDefStatement {
    pub name: String,
    pub lhs: Pattern,
    pub rhs: Pattern,
}

/// An apply directive: a rule name and an iteration budget.
pub struct ApplyStatement {
    pub rule_name: String,
    pub iterations: usize,
}

/// One statement of a program, as the parser hands it over.
pub enum GGLStatement {
    NodeDecl(NodeDeclaration),
    EdgeDecl(EdgeDeclaration),
    GenerateStmt(GenerateStatement),
    RuleDefStmt(RuleDefStatement),
    ApplyRuleStmt(ApplyStatement),
}

/// Model of one statement.
#[verifier::ext_equal]
pub enum StmtV {
    NodeDecl(NodeDeclV),
    EdgeDecl(EdgeDeclV),
    Generate(Seq<char>, Seq<AttrV>),
    RuleDef(Seq<char>, PatternV, PatternV),
    Apply(Seq<char>, int),
}

impl View for GGLStatement {
    type V = StmtV;

    open spec fn view(&self) -> StmtV {
        match self {
            GGLStatement::NodeDecl(nd) => StmtV::NodeDecl(nd@),
            GGLStatement::EdgeDecl(ed) => StmtV::EdgeDecl(ed@),
            GGLStatement::GenerateStmt(g) => StmtV::Generate(g.name@, attrs_view(g.params@)),
            GGLStatement::RuleDefStmt(rd) => StmtV::RuleDef(rd.name@, rd.lhs@, rd.rhs@),
            GGLStatement::ApplyRuleStmt(ap) => StmtV::Apply(ap.rule_name@, ap.iterations as int),
        }
    }
}

// ---------------------------------------------------------------------------
// Model of statement processing
// ---------------------------------------------------------------------------

/// The node record a node declaration constructs.
pub open spec fn decl_node(nd: NodeDeclV) -> NodeV {
    NodeV {
        id: nd.id,
        node_type: match nd.node_type {
            Some(t) => t,
            None => Seq::<char>::empty(),
        },
        metadata: attrs_put_all(Seq::<AttrV>::empty(), nd.attributes),
        x_bits: 0,
        y_bits: 0,
    }
}

/// The edge record an edge declaration constructs (untyped; the declared
/// attributes in order).
pub open spec fn decl_edge(ed: EdgeDeclV) -> EdgeV {
    EdgeV {
        id: ed.id,
        source: ed.source,
        target: ed.target,
        edge_type: Seq::<char>::empty(),
        metadata: attrs_put_all(Seq::<AttrV>::empty(), ed.attributes),
    }
}

/// Insertion of every edge of `es` from index `k` on, in order.
pub open spec fn put_all_edges(g: GraphV, es: Seq<EdgeV>, k: int) -> GraphV
    decreases es.len() - k,
{
    if k < 0 || k >= es.len() {
        g
    } else {
        put_all_edges(GraphV { nodes: g.nodes, edges: put_edge(g.edges, es[k]) }, es, k + 1)
    }
}

/// The merge of a generated fragment into the working graph: every fragment
/// node, then every fragment edge, each inserted with overwrite-on-collision.
pub open spec fn merge_graph(g: GraphV, frag: GraphV) -> GraphV {
    put_all_edges(add_nodes(g, frag.nodes, 0), frag.edges, 0)
}

/// What is known of a fragment a generator produced from `ps`: it is
/// well-formed and its node and edge counts follow the generator's law. The
/// preferential-attachment generator draws at random, so only count bounds
/// hold of it.
pub open spec fn generator_shape(kind: GeneratorKind, ps: Seq<AttrV>, frag: GraphV) -> bool {
    graph_wf(frag) && match kind {
        GeneratorKind::Complete => {
            &&& param_count_ok(ps, "nodes"@)
            &&& frag.nodes.len() == param_count(ps, "nodes"@)
            &&& frag.edges.len() == ({
                let n = param_count(ps, "nodes"@);
                if param_bool(ps, "directed"@, false) {
                    n * (n - 1)
                } else {
                    n * (n - 1) / 2
                }
            })
        },
        GeneratorKind::Path => {
            &&& param_count_ok(ps, "nodes"@)
            &&& frag.nodes.len() == param_count(ps, "nodes"@)
            &&& frag.edges.len() == ({
                let n = param_count(ps, "nodes"@);
                if n == 0 {
                    0
                } else {
                    n - 1
                }
            })
        },
        GeneratorKind::Cycle => {
            &&& param_count_ok(ps, "nodes"@)
            &&& frag.nodes.len() == param_count(ps, "nodes"@)
            &&& frag.edges.len() == param_count(ps, "nodes"@)
        },
        GeneratorKind::Grid => {
            &&& param_count_ok(ps, "rows"@)
            &&& param_count_ok(ps, "cols"@)
            &&& frag.nodes.len() == param_count(ps, "rows"@) * param_count(ps, "cols"@)
            &&& frag.edges.len() == ({
                let rws = param_count(ps, "rows"@);
                let cls = param_count(ps, "cols"@);
                if rws == 0 || cls == 0 {
                    0
                } else {
                    (rws - 1) * cls + rws * (cls - 1) + (if param_bool(ps, "periodic"@, false) {
                        rws + cls
                    } else {
                        0
                    })
                }
            })
        },
        GeneratorKind::Star => {
            &&& param_count_ok(ps, "nodes"@)
            &&& frag.nodes.len() == ({
                let n = param_count(ps, "nodes"@);
                if n == 0 {
                    1
                } else {
                    n
                }
            })
            &&& frag.edges.len() == ({
                let n = param_count(ps, "nodes"@);
                if n == 0 {
                    0
                } else {
                    n - 1
                }
            })
        },
        GeneratorKind::Tree => {
            &&& param_count_ok(ps, "branching"@)
            &&& param_count_ok(ps, "depth"@)
            &&& frag.nodes.len() >= 1
            &&& frag.edges.len() == frag.nodes.len() - 1
        },
        GeneratorKind::BarabasiAlbert => {
            &&& param_count_ok(ps, "nodes"@)
            &&& param_count_ok(ps, "edges_per_node"@)
            &&& ({
                let n = param_count(ps, "nodes"@);
                let m = param_count(ps, "edges_per_node"@);
                &&& 1 <= m < n
                &&& frag.nodes.len() == n
                &&& frag.edges.len() >= tri_sum(m + 1, m + 1) + (n - m - 1)
                &&& frag.edges.len() <= tri_sum(m + 1, m + 1) + (n - m - 1) * m
            })
        },
    }
}

/// Whether a generate invocation must fail: an unknown name, a missing or
/// non-numeric count parameter, or (for preferential attachment) a degenerate
/// `edges_per_node`.
pub open spec fn generate_fails(name: Seq<char>, ps: Seq<AttrV>) -> bool {
    match spec_generator_kind(name) {
        None => true,
        Some(kind) => match kind {
            GeneratorKind::Complete => !param_count_ok(ps, "nodes"@),
            GeneratorKind::Path => !param_count_ok(ps, "nodes"@),
            GeneratorKind::Cycle => !param_count_ok(ps, "nodes"@),
            GeneratorKind::Star => !param_count_ok(ps, "nodes"@),
            GeneratorKind::Grid => !(param_count_ok(ps, "rows"@) && param_count_ok(ps, "cols"@)),
            GeneratorKind::Tree => !(param_count_ok(ps, "branching"@) && param_count_ok(
                ps,
                "depth"@,
            )),
            GeneratorKind::BarabasiAlbert => !(param_count_ok(ps, "nodes"@) && param_count_ok(
                ps,
                "edges_per_node"@,
            )) || param_count(ps, "edges_per_node"@) >= param_count(ps, "nodes"@) || param_count(
                ps,
                "edges_per_node"@,
            ) == 0,
        },
    }
}

/// Index of the rule registered under `name`, or -1.
pub open spec fn rule_index(rules: Seq<RuleV>, name: Seq<char>) -> int {
    key_index(rules, |r: RuleV| r.name, name)
}

/// Registration with overwrite: a re-registration under the same name
/// replaces the rule in place.
pub open spec fn put_rule(rules: Seq<RuleV>, r: RuleV) -> Seq<RuleV> {
    if rule_index(rules, r.name) >= 0 {
        rules.update(rule_index(rules, r.name), r)
    } else {
        rules.push(r)
    }
}

/// The effect of one statement: how it relates the rule registry and the
/// graph before to those after, and whether it reports an error.
pub open spec fn stmt_step(
    st: StmtV,
    rules: Seq<RuleV>,
    g: GraphV,
    rules2: Seq<RuleV>,
    g2: GraphV,
    failed: bool,
) -> bool {
    match st {
        StmtV::NodeDecl(nd) => !failed && rules2 == rules && g2 == (GraphV {
            nodes: put_node(g.nodes, decl_node(nd)),
            edges: g.edges,
        }),
        StmtV::EdgeDecl(ed) => !failed && rules2 == rules && g2 == (GraphV {
            nodes: g.nodes,
            edges: put_edge(g.edges, decl_edge(ed)),
        }),
        StmtV::Generate(name, ps) => rules2 == rules && (if generate_fails(name, ps) {
            failed && g2 == g
        } else {
            !failed && (match spec_generator_kind(name) {
                Some(kind) => exists|frag: GraphV|
                    #[trigger] generator_shape(kind, ps, frag) && g2 == merge_graph(g, frag),
                None => false,
            })
        }),
        StmtV::RuleDef(name, lhs, rhs) => !failed && g2 == g && rules2 == put_rule(
            rules,
            RuleV { name, lhs, rhs },
        ),
        StmtV::Apply(name, iters) => rules2 == rules && (if rule_index(rules, name) < 0 {
            failed && g2 == g
        } else {
            match spec_apply(rules[rule_index(rules, name)], g, iters as nat) {
                ApplyOutcome::Done(gg) => !failed && g2 == gg,
                ApplyOutcome::Failed(gg) => failed && g2 == gg,
            }
        }),
    }
}

/// The effect of a statement sequence: statements run in order; the first
/// error stops the run and keeps the state reached at that point.
pub open spec fn steps(
    stmts: Seq<StmtV>,
    rules: Seq<RuleV>,
    g: GraphV,
    rules2: Seq<RuleV>,
    g2: GraphV,
    failed: bool,
) -> bool
    decreases stmts.len(),
{
    if stmts.len() == 0 {
        !failed && rules2 == rules && g2 == g
    } else {
        exists|rm: Seq<RuleV>, gm: GraphV, f1: bool|
            #[trigger] stmt_step(stmts[0], rules, g, rm, gm, f1) && (if f1 {
                failed && rules2 == rm && g2 == gm
            } else {
                steps(stmts.drop_first(), rm, gm, rules2, g2, failed)
            })
    }
}

/// One more statement at the end of a run extends the run.
pub proof fn lemma_steps_snoc(
    stmts: Seq<StmtV>,
    x: StmtV,
    r0: Seq<RuleV>,
    g0: GraphV,
    r1: Seq<RuleV>,
    g1: GraphV,
    r2: Seq<RuleV>,
    g2: GraphV,
    fl: bool,
)
    requires
        steps(stmts, r0, g0, r1, g1, false),
        stmt_step(x, r1, g1, r2, g2, fl),
    ensures
        steps(stmts.push(x), r0, g0, r2, g2, fl),
    decreases stmts.len(),
{
    if stmts.len() == 0 {
        assert(r1 == r0 && g1 == g0);
        assert(stmts.push(x)[0] == x);
        assert(stmts.push(x).drop_first() =~= Seq::<StmtV>::empty());
        assert(stmt_step(stmts.push(x)[0], r0, g0, r2, g2, fl));
        if fl {
        } else {
            assert(steps(stmts.push(x).drop_first(), r2, g2, r2, g2, false));
        }
    } else {
        let (rm, gm, f1) = choose|rm: Seq<RuleV>, gm: GraphV, f1: bool|
            #[trigger] stmt_step(stmts[0], r0, g0, rm, gm, f1) && (if f1 {
                false && r1 == rm && g1 == gm
            } else {
                steps(stmts.drop_first(), rm, gm, r1, g1, false)
            });
        lemma_steps_snoc(stmts.drop_first(), x, rm, gm, r1, g1, r2, g2, fl);
        assert(stmts.push(x)[0] == stmts[0]);
        assert(stmts.push(x).drop_first() =~= stmts.drop_first().push(x));
        assert(stmt_step(stmts.push(x)[0], r0, g0, rm, gm, f1) && (if f1 {
            fl && r2 == rm && g2 == gm
        } else {
            steps(stmts.push(x).drop_first(), rm, gm, r2, g2, fl)
        }));
    }
}

// ---------------------------------------------------------------------------
// The engine
// ---------------------------------------------------------------------------

/// Model of the engine: the working graph and the rule registry in
/// registration order.
#[verifier::ext_equal]
pub struct EngineV {
    pub graph: GraphV,
    pub rules: Seq<RuleV>,
}

/// The engine: one mutable graph and one rule registry, reset at the start
/// of each program run.
pub struct GGLEngine {
    pub graph: Graph,
    pub rules: Vec<Rule>,
}

impl View for GGLEngine {
    type V = EngineV;

    open spec fn view(&self) -> EngineV {
        EngineV { graph: self.graph@, rules: self.rules@.map_values(|r: Rule| r@) }
    }
}

impl GGLEngine {
    /// Well-formedness: the graph's ids are unique, and so are rule names.
    pub open spec fn wf(self) -> bool {
        self.graph.wf() && keys_unique(self@.rules, |r: RuleV| r.name)
    }

    /// A fresh engine with an empty graph and no rules.
    pub fn new() -> (r: GGLEngine)
        ensures
            r@.graph.nodes == Seq::<NodeV>::empty(),
            r@.graph.edges == Seq::<EdgeV>::empty(),
            r@.rules == Seq::<RuleV>::empty(),
            r.wf(),
    {
        let r = GGLEngine { graph: Graph::new(), rules: Vec::new() };
        assert(r@.rules =~= Seq::<RuleV>::empty());
        r
    }

    /// Index of the rule registered under `name`, if any.
    fn find_rule(&self, name: &String) -> (r: Option<usize>)
        ensures
            match r {
                Some(i) => i == rule_index(self@.rules, name@),
                None => rule_index(self@.rules, name@) < 0,
            },
    {
        let ghost s = self@.rules;
        let mut i: usize = 0;
        while i < self.rules.len()
            invariant
                0 <= i <= self.rules.len(),
                s.len() == self.rules.len(),
                s == self@.rules,
                forall|j: int| 0 <= j < i ==> s[j].name != name@,
            decreases self.rules.len() - i,
        {
            assert(s[i as int] == self.rules@[i as int]@);
            if self.rules[i].name == *name {
                proof {
                    lemma_key_index(s, |r: RuleV| r.name, name@);
                }
                return Some(i);
            }
            i = i + 1;
        }
        proof {
            lemma_key_index(s, |r: RuleV| r.name, name@);
        }
        None
    }

    /// Merge of a generated fragment into the working graph, node by node
    /// and edge by edge, overwriting on id collision.
    fn merge_fragment(&mut self, frag: Graph)
        requires
            old(self).wf(),
        ensures
            final(self).wf(),
            final(self)@.rules == old(self)@.rules,
            final(self)@.graph == merge_graph(old(self)@.graph, frag@),
    {
        let ghost fv = frag@;
        let ghost g0 = self@.graph;
        let mut k: usize = 0;
        while k < frag.nodes.len()
            invariant
                0 <= k <= frag.nodes.len(),
                fv.nodes.len() == frag.nodes.len(),
                frag@ == fv,
                self.wf(),
                self@.rules == old(self)@.rules,
                add_nodes(g0, fv.nodes, 0) == add_nodes(self@.graph, fv.nodes, k as int),
            decreases frag.nodes.len() - k,
        {
            assert(fv.nodes[k as int] == frag.nodes@[k as int]@);
            let node = node_clone(&frag.nodes[k]);
            self.graph.add_node(node);
            k = k + 1;
        }
        let ghost g1 = self@.graph;
        assert(g1 == add_nodes(g0, fv.nodes, 0));
        let mut k2: usize = 0;
        while k2 < frag.edges.len()
            invariant
                0 <= k2 <= frag.edges.len(),
                fv.edges.len() == frag.edges.len(),
                frag@ == fv,
                self.wf(),
                self@.rules == old(self)@.rules,
                put_all_edges(g1, fv.edges, 0) == put_all_edges(self@.graph, fv.edges, k2 as int),
            decreases frag.edges.len() - k2,
        {
            assert(fv.edges[k2 as int] == frag.edges@[k2 as int]@);
            let edge = edge_clone(&frag.edges[k2]);
            self.graph.add_edge(edge);
            k2 = k2 + 1;
        }
        assert(self@.graph == put_all_edges(g1, fv.edges, 0));
    }

    /// Processing of one statement: a declaration inserts its record, a
    /// generate invocation merges the generator's fragment, a rule definition
    /// registers (or replaces) the rule, an apply directive runs the rule
    /// engine. An error leaves every earlier mutation in place.
    pub fn exec_statement(&mut self, stmt: GGLStatement) -> (r: Result<(), String>)
        requires
            old(self).wf(),
        ensures
            final(self).wf(),
            stmt_step(
                stmt@,
                old(self)@.rules,
                old(self)@.graph,
                final(self)@.rules,
                final(self)@.graph,
                r is Err,
            ),
    {
        let ghost st = stmt@;
        match stmt {
            GGLStatement::NodeDecl(nd) => {
                let node_type = match nd.node_type {
                    Some(t) => t,
                    None => String::new(),
                };
                let node = Node::new(nd.id).with_type(node_type).with_metadata_map(nd.attributes);
                self.graph.add_node(node);
                Ok(())
            },
            GGLStatement::EdgeDecl(ed) => {
                let edge = Edge::new(ed.id, ed.source, ed.target).with_metadata_map(ed.attributes);
                self.graph.add_edge(edge);
                Ok(())
            },
            GGLStatement::GenerateStmt(gen) => {
                match get_generator(&gen.name) {
                    Some(kind) => {
                        let produced = match kind {
                            GeneratorKind::Complete => generate_complete(&gen.params),
                            GeneratorKind::Path => generate_path(&gen.params),
                            GeneratorKind::Cycle => generate_cycle(&gen.params),
                            GeneratorKind::Grid => generate_grid(&gen.params),
                            GeneratorKind::Star => generate_star(&gen.params),
                            GeneratorKind::Tree => generate_tree(&gen.params),
                            GeneratorKind::BarabasiAlbert => generate_barabasi_albert(&gen.params),
                        };
                        match produced {
                            Ok(frag) => {
                                assert(generator_shape(kind, attrs_view(gen.params@), frag@));
                                self.merge_fragment(frag);
                                Ok(())
                            },
                            Err(e) => {
                                let mut msg = "Generator error: ".to_owned();
                                msg.append(e.as_str());
                                Err(msg)
                            },
                        }
                    },
                    None => {
                        let mut msg = "Unknown generator: ".to_owned();
                        msg.append(gen.name.as_str());
                        Err(msg)
                    },
                }
            },
            GGLStatement::RuleDefStmt(rd) => {
                let rule = Rule { name: rd.name, lhs: rd.lhs, rhs: rd.rhs };
                let ghost rv = rule@;
                let ghost rs = self@.rules;
                match self.find_rule(&rule.name) {
                    Some(i) => {
                        proof {
                            lemma_key_index(rs, |r: RuleV| r.name, rv.name);
                        }
                        self.rules.set(i, rule);
                        assert(self@.rules =~= put_rule(rs, rv));
                        assert(keys_unique(self@.rules, |r: RuleV| r.name));
                    },
                    None => {
                        proof {
                            lemma_key_index(rs, |r: RuleV| r.name, rv.name);
                        }
                        self.rules.push(rule);
                        assert(self@.rules =~= put_rule(rs, rv));
                        assert(keys_unique(self@.rules, |r: RuleV| r.name));
                    },
                }
                Ok(())
            },
            GGLStatement::ApplyRuleStmt(ap) => {
                match self.find_rule(&ap.rule_name) {
                    Some(i) => {
                        proof {
                            lemma_key_index(self@.rules, |r: RuleV| r.name, ap.rule_name@);
                        }
                        assert(self@.rules[i as int] == self.rules@[i as int]@);
                        match self.rules[i].apply(&mut self.graph, ap.iterations) {
                            Ok(_) => Ok(()),
                            Err(e) => {
                                let mut msg = "Rule application error: ".to_owned();
                                msg.append(e.as_str());
                                Err(msg)
                            },
                        }
                    },
                    None => {
                        let mut msg = "Unknown rule: ".to_owned();
                        msg.append(ap.rule_name.as_str());
                        Err(msg)
                    },
                }
            },
        }
    }

    /// One program run: the graph and the rule registry are reset, then the
    /// statements are processed strictly in order. The first error aborts the
    /// rest of the program; mutations made before it are kept.
    pub fn run_program(&mut self, statements: Vec<GGLStatement>) -> (r: Result<(), String>)
        ensures
            final(self).wf(),
            ({
                let stv = statements@.map_values(|s: GGLStatement| s@);
                steps(
                    stv,
                    Seq::<RuleV>::empty(),
                    (GraphV { nodes: Seq::<NodeV>::empty(), edges: Seq::<EdgeV>::empty() }),
                    final(self)@.rules,
                    final(self)@.graph,
                    r is Err,
                )
            }),
    {
        let ghost stv = statements@.map_values(|s: GGLStatement| s@);
        self.graph = Graph::new();
        self.rules = Vec::new();
        assert(self@.rules =~= Seq::<RuleV>::empty());
        let ghost r0 = self@.rules;
        let ghost g0 = self@.graph;
        let mut rest = statements;
        let mut i: usize = 0;
        assert(stv.subrange(0, 0) =~= Seq::<StmtV>::empty());
        while i < rest.len()
            invariant
                0 <= i <= rest.len(),
                stv.len() == rest.len(),
                rest@.map_values(|s: GGLStatement| s@) == stv,
                self.wf(),
                steps(stv.subrange(0, i as int), r0, g0, self@.rules, self@.graph, false),
            decreases rest.len() - i,
        {
            assert(stv[i as int] == rest@[i as int]@);
            let ghost pre_rules = self@.rules;
            let ghost pre_graph = self@.graph;
            let stmt = get_statement(&rest, i);
            let res = self.exec_statement(stmt);
            proof {
                lemma_steps_snoc(
                    stv.subrange(0, i as int),
                    stv[i as int],
                    r0,
                    g0,
                    pre_rules,
                    pre_graph,
                    self@.rules,
                    self@.graph,
                    res is Err,
                );
                assert(stv.subrange(0, i as int).push(stv[i as int]) =~= stv.subrange(
                    0,
                    i + 1 as int,
                ));
            }
            match res {
                Ok(_) => {},
                Err(e) => {
                    assert(stv.subrange(0, i + 1 as int) =~= stv.subrange(0, i + 1 as int));
                    proof {
                        lemma_steps_prefix_fail(stv, i + 1 as int, r0, g0, self@.rules, self@.graph);
                    }
                    return Err(e);
                },
            }
            i = i + 1;
        }
        assert(stv.subrange(0, stv.len() as int) =~= stv);
        Ok(())
    }
}

/// A copy of the statement at one index (statements own their data, so the
/// copy is built field by field).
fn get_statement(v: &Vec<GGLStatement>, i: usize) -> (r: GGLStatement)
    requires
        i < v@.len(),
    ensures
        r@ == v@[i as int]@,
{
    match &v[i] {
        GGLStatement::NodeDecl(nd) => GGLStatement::NodeDecl(node_decl_clone(nd)),
        GGLStatement::EdgeDecl(ed) => GGLStatement::EdgeDecl(edge_decl_clone(ed)),
        GGLStatement::GenerateStmt(g) => GGLStatement::GenerateStmt(
            GenerateStatement { name: g.name.clone(), params: attrs_clone(&g.params) },
        ),
        GGLStatement::RuleDefStmt(rd) => GGLStatement::RuleDefStmt(
            RuleDefStatement {
                name: rd.name.clone(),
                lhs: pattern_clone(&rd.lhs),
                rhs: pattern_clone(&rd.rhs),
            },
        ),
        GGLStatement::ApplyRuleStmt(ap) => GGLStatement::ApplyRuleStmt(
            ApplyStatement { rule_name: ap.rule_name.clone(), iterations: ap.iterations },
        ),
    }
}

/// A copy of a node template, equal to the original in the model.
pub fn node_decl_clone(nd: &NodeDeclaration) -> (r: NodeDeclaration)
    ensures
        r@ == nd@,
{
    NodeDeclaration {
        id: nd.id.clone(),
        node_type: match &nd.node_type {
            Some(t) => Some(t.clone()),
            None => None,
        },
        attributes: attrs_clone(&nd.attributes),
    }
}

/// A copy of an edge template, equal to the original in the model.
pub fn edge_decl_clone(ed: &EdgeDeclaration) -> (r: EdgeDeclaration)
    ensures
        r@ == ed@,
{
    EdgeDeclaration {
        id: ed.id.clone(),
        source: ed.source.clone(),
        target: ed.target.clone(),
        directed: ed.directed,
        attributes: attrs_clone(&ed.attributes),
    }
}

/// A copy of a pattern, equal to the original in the model.
pub fn pattern_clone(p: &Pattern) -> (r: Pattern)
    ensures
        r@ == p@,
{
    let mut nodes: Vec<NodeDeclaration> = Vec::new();
    let mut i: usize = 0;
    while i < p.nodes.len()
        invariant
            0 <= i <= p.nodes.len(),
            nodes@.map_values(|n: NodeDeclaration| n@) =~= p@.nodes.subrange(0, i as int),
        decreases p.nodes.len() - i,
    {
        assert(p@.nodes[i as int] == p.nodes@[i as int]@);
        nodes.push(node_decl_clone(&p.nodes[i]));
        assert(nodes@.map_values(|n: NodeDeclaration| n@) =~= p@.nodes.subrange(0, i + 1 as int));
        i = i + 1;
    }
    let mut edges: Vec<EdgeDeclaration> = Vec::new();
    let mut j: usize = 0;
    while j < p.edges.len()
        invariant
            0 <= j <= p.edges.len(),
            nodes@.map_values(|n: NodeDeclaration| n@) =~= p@.nodes.subrange(
                0,
                p@.nodes.len() as int,
            ),
            edges@.map_values(|e: EdgeDeclaration| e@) =~= p@.edges.subrange(0, j as int),
        decreases p.edges.len() - j,
    {
        assert(p@.edges[j as int] == p.edges@[j as int]@);
        edges.push(edge_decl_clone(&p.edges[j]));
        assert(edges@.map_values(|e: EdgeDeclaration| e@) =~= p@.edges.subrange(0, j + 1 as int));
        j = j + 1;
    }
    let r = Pattern { nodes, edges };
    assert(p@.nodes.subrange(0, p@.nodes.len() as int) =~= p@.nodes);
    assert(p@.edges.subrange(0, p@.edges.len() as int) =~= p@.edges);
    r
}

/// A failed step ends the whole run in the failed state, whatever statements
/// follow.
proof fn lemma_steps_prefix_fail(
    stv: Seq<StmtV>,
    i: int,
    r0: Seq<RuleV>,
    g0: GraphV,
    r2: Seq<RuleV>,
    g2: GraphV,
)
    requires
        0 < i <= stv.len(),
        steps(stv.subrange(0, i), r0, g0, r2, g2, true),
    ensures
        steps(stv, r0, g0, r2, g2, true),
    decreases i,
{
    let pre = stv.subrange(0, i);
    if i == 1 {
        let (rm, gm, f1) = choose|rm: Seq<RuleV>, gm: GraphV, f1: bool|
            #[trigger] stmt_step(pre[0], r0, g0, rm, gm, f1) && (if f1 {
                true && r2 == rm && g2 == gm
            } else {
                steps(pre.drop_first(), rm, gm, r2, g2, true)
            });
        assert(stv[0] == pre[0]);
        if f1 {
            assert(stmt_step(stv[0], r0, g0, rm, gm, f1));
        } else {
            assert(pre.drop_first() =~= Seq::<StmtV>::empty());
            assert(false);
        }
    } else {
        let (rm, gm, f1) = choose|rm: Seq<RuleV>, gm: GraphV, f1: bool|
            #[trigger] stmt_step(pre[0], r0, g0, rm, gm, f1) && (if f1 {
                true && r2 == rm && g2 == gm
            } else {
                steps(pre.drop_first(), rm, gm, r2, g2, true)
            });
        assert(stv[0] == pre[0]);
        if f1 {
            assert(stmt_step(stv[0], r0, g0, rm, gm, f1));
        } else {
            assert(pre.drop_first() =~= stv.drop_first().subrange(0, i - 1));
            lemma_steps_prefix_fail(stv.drop_first(), i - 1, rm, gm, r2, g2);
            assert(stmt_step(stv[0], r0, g0, rm, gm, f1) && steps(
                stv.drop_first(),
                rm,
                gm,
                r2,
                g2,
                true,
            ));
        }
    }
}

} // verus!
