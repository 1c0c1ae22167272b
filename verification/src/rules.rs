//! The rewrite engine: first-fit subgraph matching and match-driven rewriting.
//!
//! The matcher is deliberately greedy and non-backtracking: it anchors a
//! pattern's first node template at each unvisited graph node in insertion
//! order, extends template by template to the first acceptable candidate, and
//! never revisits an earlier binding. This is a known expressiveness limit
//! (matches that would require reordering bindings are not found), preserved
//! here as designed rather than upgraded to full subgraph-isomorphism search.
use vstd::prelude::*;
use crate::types::{
    AttrV, Edge, EdgeV, Graph, GraphV, Node, NodeV, attrs_clone, attrs_get, attrs_has,
    attrs_lookup, attrs_put_all, drop_node, edges_keep, has_node_id, keys_unique,
    lemma_key_index, meta_eq, node_at, node_clone, node_index_of, put_edge, put_node,
};
use crate::pattern::{
    Binding, BindingV, EdgeDeclV, Match, MatchV, NodeDeclaration, NodeDeclV, Pattern, PatternV,
    bindings_view, map_get, map_has, map_has_value, map_insert, map_lookup, map_put, maps_to,
};

verus! {

// ---------------------------------------------------------------------------
// Mathematical model of matching
// ---------------------------------------------------------------------------

/// Whether a graph node satisfies a node template: the template's declared
/// type (if any) must equal the node's type, and every template attribute
/// must be present in the node's metadata with an equal value.
pub open spec fn node_satisfies(nv: NodeV, t: NodeDeclV) -> bool {
    &&& match t.node_type {
        Some(ty) => nv.node_type == ty,
        None => true,
    }
    &&& forall|i: int|
        0 <= i < t.attributes.len() ==> {
            &&& attrs_has(nv.metadata, (#[trigger] t.attributes[i]).key)
            &&& attrs_get(nv.metadata, t.attributes[i].key) == t.attributes[i].value
        }
}

/// The first graph node, scanning from index `i` in insertion order, whose id
/// is not yet mapped to and which satisfies the template.
pub open spec fn find_node_from(
    g: GraphV,
    m: Seq<BindingV>,
    t: NodeDeclV,
    i: int,
) -> Option<Seq<char>>
    decreases g.nodes.len() - i,
{
    if i < 0 || i >= g.nodes.len() {
        None
    } else if !maps_to(m, g.nodes[i].id) && node_satisfies(g.nodes[i], t) {
        Some(g.nodes[i].id)
    } else {
        find_node_from(g, m, t, i + 1)
    }
}

/// Greedy extension over the node templates from index `k` on: each template
/// binds to the first unused satisfying node, with no backtracking.
pub open spec fn extend_nodes(
    g: GraphV,
    pnodes: Seq<NodeDeclV>,
    m: Seq<BindingV>,
    k: int,
) -> Option<Seq<BindingV>>
    decreases pnodes.len() - k,
{
    if k < 0 || k >= pnodes.len() {
        Some(m)
    } else {
        match find_node_from(g, m, pnodes[k], 0) {
            None => None,
            Some(gid) => extend_nodes(g, pnodes, map_put(m, pnodes[k].id, gid), k + 1),
        }
    }
}

/// The first graph edge, scanning from index `i` in insertion order, that is
/// not yet consumed by this match and runs from `src` to `tgt`.
pub open spec fn find_edge_from(
    g: GraphV,
    em: Seq<BindingV>,
    src: Seq<char>,
    tgt: Seq<char>,
    i: int,
) -> Option<Seq<char>>
    decreases g.edges.len() - i,
{
    if i < 0 || i >= g.edges.len() {
        None
    } else if !maps_to(em, g.edges[i].id) && g.edges[i].source == src && g.edges[i].target == tgt {
        Some(g.edges[i].id)
    } else {
        find_edge_from(g, em, src, tgt, i + 1)
    }
}

/// Outcome of the edge-template phase: all edges bound, no matching edge for
/// some template, or a template referencing a node id absent from the node
/// mapping (a malformed rule, surfaced as an error rather than a non-match).
#[verifier::ext_equal]
pub enum EdgesOutcome {
    Bound(Seq<BindingV>),
    NoMatch,
    BadRef,
}

/// Edge-template binding from template index `k` on: resolve each template's
/// endpoints through the node mapping, then bind the first unconsumed edge
/// with exactly those endpoints.
pub open spec fn extend_edges(
    g: GraphV,
    pedges: Seq<EdgeDeclV>,
    nm: Seq<BindingV>,
    em: Seq<BindingV>,
    k: int,
) -> EdgesOutcome
    decreases pedges.len() - k,
{
    if k < 0 || k >= pedges.len() {
        EdgesOutcome::Bound(em)
    } else {
        let pe = pedges[k];
        if !map_has(nm, pe.source) || !map_has(nm, pe.target) {
            EdgesOutcome::BadRef
        } else {
            match find_edge_from(g, em, map_get(nm, pe.source), map_get(nm, pe.target), 0) {
                None => EdgesOutcome::NoMatch,
                Some(eid) => extend_edges(g, pedges, nm, map_put(em, pe.id, eid), k + 1),
            }
        }
    }
}

/// Outcome of one anchored match attempt.
#[verifier::ext_equal]
pub enum AttemptOutcome {
    Matched(MatchV),
    NotMatched,
    BadRef,
}

/// One match attempt anchored at the graph node with id `gid`: a pattern with
/// no node templates matches trivially with the empty match; otherwise the
/// first template must accept the anchor, the remaining templates extend
/// greedily, and then every edge template must bind.
pub open spec fn try_match_at(p: PatternV, g: GraphV, gid: Seq<char>) -> AttemptOutcome {
    if p.nodes.len() == 0 {
        AttemptOutcome::Matched(
            MatchV { node_mapping: Seq::<BindingV>::empty(), edge_mapping: Seq::<BindingV>::empty() },
        )
    } else if !node_satisfies(node_at(g.nodes, gid), p.nodes[0]) {
        AttemptOutcome::NotMatched
    } else {
        let m0 = seq![BindingV { key: p.nodes[0].id, value: gid }];
        match extend_nodes(g, p.nodes, m0, 1) {
            None => AttemptOutcome::NotMatched,
            Some(nm) => match extend_edges(g, p.edges, nm, Seq::<BindingV>::empty(), 0) {
                EdgesOutcome::Bound(em) => AttemptOutcome::Matched(
                    MatchV { node_mapping: nm, edge_mapping: em },
                ),
                EdgesOutcome::NoMatch => AttemptOutcome::NotMatched,
                EdgesOutcome::BadRef => AttemptOutcome::BadRef,
            },
        }
    }
}

/// The set of graph node ids a match's node mapping maps to.
pub open spec fn bound_values(s: Seq<BindingV>) -> Set<Seq<char>> {
    Set::new(|v: Seq<char>| maps_to(s, v))
}

/// Outcome of one full matching pass.
#[verifier::ext_equal]
pub enum FindOutcome {
    Found(Seq<MatchV>),
    BadRef,
}

/// One matching pass from graph-node index `i` on: every node whose id is
/// already consumed by a prior match of this pass is skipped as an anchor,
/// every successful match marks all its mapped node ids as consumed, and
/// matches are collected in anchor order.
pub open spec fn find_from(
    p: PatternV,
    g: GraphV,
    i: int,
    visited: Set<Seq<char>>,
    acc: Seq<MatchV>,
) -> FindOutcome
    decreases g.nodes.len() - i,
{
    if i < 0 || i >= g.nodes.len() {
        FindOutcome::Found(acc)
    } else if visited.contains(g.nodes[i].id) {
        find_from(p, g, i + 1, visited, acc)
    } else {
        match try_match_at(p, g, g.nodes[i].id) {
            AttemptOutcome::NotMatched => find_from(p, g, i + 1, visited, acc),
            AttemptOutcome::Matched(m) => find_from(
                p,
                g,
                i + 1,
                visited.union(bound_values(m.node_mapping)),
                acc.push(m),
            ),
            AttemptOutcome::BadRef => FindOutcome::BadRef,
        }
    }
}

/// The result of one full matching pass of pattern `p` over graph `g`.
pub open spec fn spec_find_matches(p: PatternV, g: GraphV) -> FindOutcome {
    find_from(p, g, 0, Set::<Seq<char>>::empty(), Seq::<MatchV>::empty())
}

// ---------------------------------------------------------------------------
// Mathematical model of rewriting
// ---------------------------------------------------------------------------

/// Resolution of a pattern-local id through the node mapping: the mapped
/// graph id if bound, else the id itself taken literally (this is what lets
/// right-hand-side edges connect to brand-new nodes).
pub open spec fn resolve_id(nm: Seq<BindingV>, pid: Seq<char>) -> Seq<char> {
    if map_has(nm, pid) {
        map_get(nm, pid)
    } else {
        pid
    }
}

/// Whether some node template in `pnodes` carries the pattern-local id.
pub open spec fn has_template(pnodes: Seq<NodeDeclV>, pid: Seq<char>) -> bool {
    exists|i: int| 0 <= i < pnodes.len() && pnodes[i].id == pid
}

/// The node record a right-hand-side template constructs: the resolved id,
/// the declared type (or untyped), the template's attributes in order, and
/// the default position.
pub open spec fn template_node(t: NodeDeclV, nid: Seq<char>) -> NodeV {
    NodeV {
        id: nid,
        node_type: match t.node_type {
            Some(ty) => ty,
            None => Seq::<char>::empty(),
        },
        metadata: attrs_put_all(Seq::<AttrV>::empty(), t.attributes),
        x_bits: 0,
        y_bits: 0,
    }
}

/// The staging list of brand-new nodes built from the right-hand side's node
/// templates (keyed by resolved id, insertion with overwrite): a template
/// whose resolved id is already a mapped graph node id is preserved, not
/// rebuilt.
pub open spec fn build_new_nodes(
    rnodes: Seq<NodeDeclV>,
    nm: Seq<BindingV>,
    k: int,
    acc: Seq<NodeV>,
) -> Seq<NodeV>
    decreases rnodes.len() - k,
{
    if k < 0 || k >= rnodes.len() {
        acc
    } else {
        let nid = resolve_id(nm, rnodes[k].id);
        if maps_to(nm, nid) {
            build_new_nodes(rnodes, nm, k + 1, acc)
        } else {
            build_new_nodes(rnodes, nm, k + 1, put_node(acc, template_node(rnodes[k], nid)))
        }
    }
}

/// Removal of one node id with its cascading edge delete.
pub open spec fn graph_remove(g: GraphV, id: Seq<char>) -> GraphV {
    GraphV { nodes: drop_node(g.nodes, id), edges: edges_keep(g.edges, id) }
}

/// Deletion phase: every graph node bound by the match whose pattern-local id
/// does not appear among the right-hand side's node templates is removed
/// (cascading to its edges), in binding order.
pub open spec fn remove_unpreserved(
    g: GraphV,
    nm: Seq<BindingV>,
    rnodes: Seq<NodeDeclV>,
    k: int,
) -> GraphV
    decreases nm.len() - k,
{
    if k < 0 || k >= nm.len() {
        g
    } else if !has_template(rnodes, nm[k].key) {
        remove_unpreserved(graph_remove(g, nm[k].value), nm, rnodes, k + 1)
    } else {
        remove_unpreserved(g, nm, rnodes, k + 1)
    }
}

/// Insertion of the staged new nodes, in staging order.
pub open spec fn add_nodes(g: GraphV, staged: Seq<NodeV>, k: int) -> GraphV
    decreases staged.len() - k,
{
    if k < 0 || k >= staged.len() {
        g
    } else {
        add_nodes(
            GraphV { nodes: put_node(g.nodes, staged[k]), edges: g.edges },
            staged,
            k + 1,
        )
    }
}

/// The edge record a right-hand-side edge template constructs: the template's
/// id, endpoints resolved through the node mapping (or taken literally),
/// untyped, with the template's attributes.
pub open spec fn template_edge(t: EdgeDeclV, nm: Seq<BindingV>) -> EdgeV {
    EdgeV {
        id: t.id,
        source: resolve_id(nm, t.source),
        target: resolve_id(nm, t.target),
        edge_type: Seq::<char>::empty(),
        metadata: attrs_put_all(Seq::<AttrV>::empty(), t.attributes),
    }
}

/// Edge phase of a rewrite: every right-hand-side edge template constructs a
/// fresh edge, overwriting any edge under the same id.
pub open spec fn add_rhs_edges(g: GraphV, redges: Seq<EdgeDeclV>, nm: Seq<BindingV>, k: int) -> GraphV
    decreases redges.len() - k,
{
    if k < 0 || k >= redges.len() {
        g
    } else {
        add_rhs_edges(
            GraphV { nodes: g.nodes, edges: put_edge(g.edges, template_edge(redges[k], nm)) },
            redges,
            nm,
            k + 1,
        )
    }
}

/// One rewrite application: stage the brand-new right-hand-side nodes, delete
/// the match-bound nodes absent from the right-hand side (cascading), add the
/// staged nodes, then add the right-hand-side edges.
pub open spec fn spec_apply_match(rhs: PatternV, g: GraphV, m: MatchV) -> GraphV {
    add_rhs_edges(
        add_nodes(
            remove_unpreserved(g, m.node_mapping, rhs.nodes, 0),
            build_new_nodes(rhs.nodes, m.node_mapping, 0, Seq::<NodeV>::empty()),
            0,
        ),
        rhs.edges,
        m.node_mapping,
        0,
    )
}

/// All matches of one pass applied in order, each rewrite observing the
/// effects of the earlier ones.
pub open spec fn apply_matches(rhs: PatternV, g: GraphV, ms: Seq<MatchV>, k: int) -> GraphV
    decreases ms.len() - k,
{
    if k < 0 || k >= ms.len() {
        g
    } else {
        apply_matches(rhs, spec_apply_match(rhs, g, ms[k]), ms, k + 1)
    }
}

/// Model of a rule.
#[verifier::ext_equal]
pub struct RuleV {
    pub name: Seq<char>,
    pub lhs: PatternV,
    pub rhs: PatternV,
}

/// Outcome of a full apply call: the final graph on success, or the graph at
/// the point of failure (partial mutation is kept, not rolled back).
#[verifier::ext_equal]
pub enum ApplyOutcome {
    Done(GraphV),
    Failed(GraphV),
}

/// Up to `iters` rounds: one full matching pass, stop early at an empty match
/// set (a fixpoint), otherwise rewrite every match of the round and repeat.
pub open spec fn spec_apply(rule: RuleV, g: GraphV, iters: nat) -> ApplyOutcome
    decreases iters,
{
    if iters == 0 {
        ApplyOutcome::Done(g)
    } else {
        match spec_find_matches(rule.lhs, g) {
            FindOutcome::BadRef => ApplyOutcome::Failed(g),
            FindOutcome::Found(ms) => if ms.len() == 0 {
                ApplyOutcome::Done(g)
            } else {
                spec_apply(rule, apply_matches(rule.rhs, g, ms, 0), (iters - 1) as nat)
            },
        }
    }
}

// ---------------------------------------------------------------------------
// The rule type and the executable matcher
// ---------------------------------------------------------------------------

/// A rewrite rule: a name, a left-hand pattern to match, and a right-hand
/// pattern to instantiate. Immutable once registered.
#[derive(Debug)]
pub struct Rule {
    pub name: String,
    pub lhs: Pattern,
    pub rhs: Pattern,
}

impl View for Rule {
    type V = RuleV;

    open spec fn view(&self) -> RuleV {
        RuleV { name: self.name@, lhs: self.lhs@, rhs: self.rhs@ }
    }
}

/// In a store with unique ids, looking a node's own id up finds that node.
pub proof fn lemma_node_index_self(s: Seq<NodeV>, i: int)
    requires
        keys_unique(s, |n: NodeV| n.id),
        0 <= i < s.len(),
    ensures
        node_index_of(s, s[i].id) == i,
{
    lemma_key_index(s, |n: NodeV| n.id, s[i].id);
}

/// Outcome of the extension of a partially anchored match.
#[verifier::ext_equal]
pub enum ExtendOutcome {
    Extended { nm: Seq<BindingV>, em: Seq<BindingV> },
    Stuck,
    BadRef,
}

/// Extension of an anchored match: the remaining node templates first, then
/// every edge template.
pub open spec fn spec_extend(
    g: GraphV,
    p: PatternV,
    nm0: Seq<BindingV>,
    em0: Seq<BindingV>,
) -> ExtendOutcome {
    match extend_nodes(g, p.nodes, nm0, 1) {
        None => ExtendOutcome::Stuck,
        Some(nm) => match extend_edges(g, p.edges, nm, em0, 0) {
            EdgesOutcome::Bound(em) => ExtendOutcome::Extended { nm, em },
            EdgesOutcome::NoMatch => ExtendOutcome::Stuck,
            EdgesOutcome::BadRef => ExtendOutcome::BadRef,
        },
    }
}

/// The set of ids a list of visited-id strings denotes.
pub open spec fn ids_set(v: Seq<String>) -> Set<Seq<char>> {
    Set::new(|x: Seq<char>| exists|i: int| 0 <= i < v.len() && v[i]@ == x)
}

/// Appending one string adds exactly its view to the denoted set.
pub proof fn lemma_ids_set_push(v: Seq<String>, x: String)
    ensures
        ids_set(v.push(x)) == ids_set(v).insert(x@),
{
    assert forall|y: Seq<char>| ids_set(v.push(x)).contains(y) implies ids_set(v).insert(
        x@,
    ).contains(y) by {
        let ix = choose|ix: int| 0 <= ix < v.push(x).len() && v.push(x)[ix]@ == y;
        if ix < v.len() {
            assert(v[ix]@ == y);
        }
    }
    assert forall|y: Seq<char>| ids_set(v).insert(x@).contains(y) implies ids_set(
        v.push(x),
    ).contains(y) by {
        if ids_set(v).contains(y) {
            let ix = choose|ix: int| 0 <= ix < v.len() && v[ix]@ == y;
            assert(v.push(x)[ix]@ == y);
        } else {
            assert(v.push(x)[v.len() as int]@ == y);
        }
    }
    assert(ids_set(v.push(x)) =~= ids_set(v).insert(x@));
}

/// The first graph edge not yet consumed by this match that runs from `src`
/// to `tgt`, if any.
fn find_edge_candidate(graph: &Graph, em: &Vec<Binding>, src: &String, tgt: &String) -> (r: Option<
    String,
>)
    ensures
        match r {
            Some(eid) => find_edge_from(graph@, bindings_view(em@), src@, tgt@, 0) == Some(eid@),
            None => find_edge_from(graph@, bindings_view(em@), src@, tgt@, 0) == None::<Seq<char>>,
        },
{
    let ghost g = graph@;
    let ghost emv = bindings_view(em@);
    let mut i: usize = 0;
    while i < graph.edges.len()
        invariant
            0 <= i <= graph.edges.len(),
            g.edges.len() == graph.edges.len(),
            find_edge_from(g, emv, src@, tgt@, 0) == find_edge_from(g, emv, src@, tgt@, i as int),
        decreases graph.edges.len() - i,
    {
        assert(g.edges[i as int] == graph.edges@[i as int]@);
        let used = map_has_value(em, &graph.edges[i].id);
        if !used && graph.edges[i].source == *src && graph.edges[i].target == *tgt {
            return Some(graph.edges[i].id.clone());
        }
        i = i + 1;
    }
    None
}

/// Membership test on the visited-id list.
fn ids_contain(v: &Vec<String>, s: &String) -> (r: bool)
    ensures
        r == ids_set(v@).contains(s@),
{
    let mut i: usize = 0;
    while i < v.len()
        invariant
            0 <= i <= v.len(),
            forall|j: int| 0 <= j < i ==> v@[j]@ != s@,
        decreases v.len() - i,
    {
        if v[i] == *s {
            return true;
        }
        i = i + 1;
    }
    false
}

/// Whether some node template in the list carries the pattern-local id.
fn contains_template(pnodes: &Vec<NodeDeclaration>, pid: &String) -> (r: bool)
    ensures
        r == has_template(pnodes@.map_values(|n: NodeDeclaration| n@), pid@),
{
    let ghost s = pnodes@.map_values(|n: NodeDeclaration| n@);
    let mut i: usize = 0;
    while i < pnodes.len()
        invariant
            0 <= i <= pnodes.len(),
            s.len() == pnodes.len(),
            forall|j: int| 0 <= j < i ==> s[j].id != pid@,
        decreases pnodes.len() - i,
    {
        assert(s[i as int] == pnodes@[i as int]@);
        if pnodes[i].id == *pid {
            return true;
        }
        i = i + 1;
    }
    false
}

impl Rule {
    /// Whether the graph node under `graph_node_id` satisfies the template:
    /// an error only if no node has that id.
    fn node_matches(
        &self,
        graph: &Graph,
        graph_node_id: &String,
        pattern_node: &NodeDeclaration,
    ) -> (r: Result<bool, String>)
        ensures
            match r {
                Ok(b) => has_node_id(graph@.nodes, graph_node_id@) && b == node_satisfies(
                    node_at(graph@.nodes, graph_node_id@),
                    pattern_node@,
                ),
                Err(_) => !has_node_id(graph@.nodes, graph_node_id@),
            },
    {
        let graph_node = match graph.get_node(graph_node_id) {
            Some(n) => n,
            None => {
                let mut msg = "Node ".to_owned();
                msg.append(graph_node_id.as_str());
                msg.append(" not found in graph");
                return Err(msg);
            },
        };
        match &pattern_node.node_type {
            Some(ty) => {
                if !(graph_node.node_type == *ty) {
                    return Ok(false);
                }
            },
            None => {},
        }
        let ghost t = pattern_node@;
        let ghost nv = node_at(graph@.nodes, graph_node_id@);
        let mut i: usize = 0;
        while i < pattern_node.attributes.len()
            invariant
                0 <= i <= pattern_node.attributes.len(),
                t.attributes.len() == pattern_node.attributes.len(),
                forall|j: int|
                    0 <= j < i ==> attrs_has(nv.metadata, (#[trigger] t.attributes[j]).key)
                        && attrs_get(nv.metadata, t.attributes[j].key) == t.attributes[j].value,
            decreases pattern_node.attributes.len() - i,
        {
            assert(t.attributes[i as int] == pattern_node.attributes@[i as int]@);
            match attrs_lookup(&graph_node.metadata, &pattern_node.attributes[i].key) {
                Some(gv) => {
                    if !meta_eq(gv, &pattern_node.attributes[i].value) {
                        return Ok(false);
                    }
                },
                None => {
                    return Ok(false);
                },
            }
            i = i + 1;
        }
        Ok(true)
    }

    /// The first graph node, in insertion order, not yet mapped to by this
    /// match and satisfying the template, if any.
    fn find_candidate(
        &self,
        graph: &Graph,
        m: &Vec<Binding>,
        t: &NodeDeclaration,
    ) -> (r: Result<Option<String>, String>)
        requires
            graph.wf(),
        ensures
            match r {
                Ok(Some(id)) => find_node_from(graph@, bindings_view(m@), t@, 0) == Some(id@),
                Ok(None) => find_node_from(graph@, bindings_view(m@), t@, 0) == None::<Seq<char>>,
                Err(_) => false,
            },
    {
        let ghost g = graph@;
        let ghost mv = bindings_view(m@);
        let ghost tv = t@;
        let mut i: usize = 0;
        while i < graph.nodes.len()
            invariant
                0 <= i <= graph.nodes.len(),
                g.nodes.len() == graph.nodes.len(),
                find_node_from(g, mv, tv, 0) == find_node_from(g, mv, tv, i as int),
            decreases graph.nodes.len() - i,
        {
            assert(g.nodes[i as int] == graph.nodes@[i as int]@);
            let gid = graph.nodes[i].id.clone();
            let used = map_has_value(m, &gid);
            if !used {
                proof {
                    lemma_node_index_self(g.nodes, i as int);
                }
                match self.node_matches(graph, &gid, t) {
                    Ok(true) => {
                        return Ok(Some(gid));
                    },
                    Ok(false) => {},
                    Err(e) => {
                        return Err(e);
                    },
                }
            }
            i = i + 1;
        }
        Ok(None)
    }

    /// Extension of an anchored match in place: remaining node templates
    /// first (each to the first unused satisfying node, no backtracking),
    /// then every edge template. `Ok(false)` reports a failed attempt; an
    /// error reports an edge template referencing an unbound node id.
    fn extend_match(
        &self,
        graph: &Graph,
        pattern: &Pattern,
        node_mapping: &mut Vec<Binding>,
        edge_mapping: &mut Vec<Binding>,
    ) -> (r: Result<bool, String>)
        requires
            graph.wf(),
        ensures
            ({
                let ph = spec_extend(
                    graph@,
                    pattern@,
                    bindings_view(old(node_mapping)@),
                    bindings_view(old(edge_mapping)@),
                );
                match r {
                    Ok(true) => ph == (ExtendOutcome::Extended {
                        nm: bindings_view(final(node_mapping)@),
                        em: bindings_view(final(edge_mapping)@),
                    }),
                    Ok(false) => ph == ExtendOutcome::Stuck,
                    Err(_) => ph == ExtendOutcome::BadRef,
                }
            }),
    {
        let ghost g = graph@;
        let ghost pv = pattern@;
        let ghost nm0 = bindings_view(node_mapping@);
        let ghost em0 = bindings_view(edge_mapping@);
        let mut k: usize = 1;
        while k < pattern.nodes.len()
            invariant
                1 <= k,
                pv.nodes.len() == pattern.nodes.len(),
                extend_nodes(g, pv.nodes, nm0, 1) == extend_nodes(
                    g,
                    pv.nodes,
                    bindings_view(node_mapping@),
                    k as int,
                ),
                bindings_view(edge_mapping@) == em0,
            decreases pattern.nodes.len() - k,
        {
            assert(pv.nodes[k as int] == pattern.nodes@[k as int]@);
            let t = &pattern.nodes[k];
            match self.find_candidate(graph, node_mapping, t) {
                Ok(Some(gid)) => {
                    map_insert(node_mapping, t.id.clone(), gid);
                },
                Ok(None) => {
                    return Ok(false);
                },
                Err(e) => {
                    return Err(e);
                },
            }
            k = k + 1;
        }
        assert(extend_nodes(g, pv.nodes, nm0, 1) == Some(bindings_view(node_mapping@)));
        let ghost nmv = bindings_view(node_mapping@);
        let mut j: usize = 0;
        while j < pattern.edges.len()
            invariant
                0 <= j <= pattern.edges.len(),
                pv.edges.len() == pattern.edges.len(),
                bindings_view(node_mapping@) == nmv,
                extend_nodes(g, pv.nodes, nm0, 1) == Some(nmv),
                extend_edges(g, pv.edges, nmv, em0, 0) == extend_edges(
                    g,
                    pv.edges,
                    nmv,
                    bindings_view(edge_mapping@),
                    j as int,
                ),
            decreases pattern.edges.len() - j,
        {
            assert(pv.edges[j as int] == pattern.edges@[j as int]@);
            let source = match map_lookup(node_mapping, &pattern.edges[j].source) {
                Some(s) => s.clone(),
                None => {
                    return Err("Invalid source node in pattern".to_owned());
                },
            };
            let target = match map_lookup(node_mapping, &pattern.edges[j].target) {
                Some(t) => t.clone(),
                None => {
                    return Err("Invalid target node in pattern".to_owned());
                },
            };
            match find_edge_candidate(graph, edge_mapping, &source, &target) {
                Some(eid) => {
                    map_insert(edge_mapping, pattern.edges[j].id.clone(), eid);
                },
                None => {
                    return Ok(false);
                },
            }
            j = j + 1;
        }
        Ok(true)
    }

    /// One match attempt anchored at the node with id `start_node`.
    fn match_pattern_from_node(
        &self,
        graph: &Graph,
        start_node: &String,
        pattern: &Pattern,
    ) -> (r: Result<Option<Match>, String>)
        requires
            graph.wf(),
            has_node_id(graph@.nodes, start_node@),
        ensures
            match r {
                Ok(Some(m)) => try_match_at(pattern@, graph@, start_node@)
                    == AttemptOutcome::Matched(m@),
                Ok(None) => try_match_at(pattern@, graph@, start_node@)
                    == AttemptOutcome::NotMatched,
                Err(_) => try_match_at(pattern@, graph@, start_node@) == AttemptOutcome::BadRef,
            },
    {
        let mut node_mapping: Vec<Binding> = Vec::new();
        let mut edge_mapping: Vec<Binding> = Vec::new();
        assert(bindings_view(node_mapping@) =~= Seq::<BindingV>::empty());
        assert(bindings_view(edge_mapping@) =~= Seq::<BindingV>::empty());
        if pattern.nodes.len() == 0 {
            return Ok(Some(Match { node_mapping, edge_mapping }));
        }
        assert(pattern@.nodes[0] == pattern.nodes@[0]@);
        match self.node_matches(graph, start_node, &pattern.nodes[0]) {
            Ok(true) => {},
            Ok(false) => {
                return Ok(None);
            },
            Err(e) => {
                return Err(e);
            },
        }
        map_insert(&mut node_mapping, pattern.nodes[0].id.clone(), start_node.clone());
        assert(bindings_view(node_mapping@) =~= seq![
            BindingV { key: pattern@.nodes[0].id, value: start_node@ },
        ]);
        match self.extend_match(graph, pattern, &mut node_mapping, &mut edge_mapping) {
            Ok(true) => Ok(Some(Match { node_mapping, edge_mapping })),
            Ok(false) => Ok(None),
            Err(e) => Err(e),
        }
    }

    /// One full matching pass: a set of matches in anchor order such that, as
    /// far as the greedy algorithm guarantees it, previously consumed node
    /// ids are not reused as anchors. An error reports a malformed rule (an
    /// edge template referencing an unbound node id).
    pub fn find_matches(&self, graph: &Graph) -> (r: Result<Vec<Match>, String>)
        requires
            graph.wf(),
        ensures
            match r {
                Ok(ms) => spec_find_matches(self@.lhs, graph@) == FindOutcome::Found(
                    ms@.map_values(|m: Match| m@),
                ),
                Err(_) => spec_find_matches(self@.lhs, graph@) == FindOutcome::BadRef,
            },
    {
        let ghost g = graph@;
        let ghost p = self@.lhs;
        let mut matches: Vec<Match> = Vec::new();
        let mut visited: Vec<String> = Vec::new();
        assert(ids_set(visited@) =~= Set::<Seq<char>>::empty());
        assert(matches@.map_values(|m: Match| m@) =~= Seq::<MatchV>::empty());
        let mut i: usize = 0;
        while i < graph.nodes.len()
            invariant
                0 <= i <= graph.nodes.len(),
                g.nodes.len() == graph.nodes.len(),
                spec_find_matches(p, g) == find_from(
                    p,
                    g,
                    i as int,
                    ids_set(visited@),
                    matches@.map_values(|m: Match| m@),
                ),
            decreases graph.nodes.len() - i,
        {
            assert(g.nodes[i as int] == graph.nodes@[i as int]@);
            let gid = graph.nodes[i].id.clone();
            if !ids_contain(&visited, &gid) {
                proof {
                    lemma_key_index(g.nodes, |n: NodeV| n.id, gid@);
                }
                match self.match_pattern_from_node(graph, &gid, &self.lhs) {
                    Ok(Some(m)) => {
                        let ghost vs0 = ids_set(visited@);
                        let ghost nmv = m@.node_mapping;
                        let ghost msv0 = matches@.map_values(|m: Match| m@);
                        let mut j: usize = 0;
                        while j < m.node_mapping.len()
                            invariant
                                0 <= j <= m.node_mapping.len(),
                                nmv.len() == m.node_mapping.len(),
                                nmv == m@.node_mapping,
                                ids_set(visited@) == vs0.union(
                                    Set::new(
                                        |v: Seq<char>|
                                            exists|t: int| 0 <= t < j && nmv[t].value == v,
                                    ),
                                ),
                            decreases m.node_mapping.len() - j,
                        {
                            assert(nmv[j as int] == m.node_mapping@[j as int]@);
                            let ghost vseq = visited@;
                            visited.push(m.node_mapping[j].value.clone());
                            proof {
                                lemma_ids_set_push(vseq, m.node_mapping@[j as int].value);
                                assert(ids_set(vseq).insert(nmv[j as int].value) =~= vs0.union(
                                    Set::new(
                                        |v: Seq<char>|
                                            exists|t: int| 0 <= t < j + 1 && nmv[t].value == v,
                                    ),
                                ));
                            }
                            j = j + 1;
                        }
                        proof {
                            assert(vs0.union(
                                Set::new(
                                    |v: Seq<char>|
                                        exists|t: int| 0 <= t < nmv.len() && nmv[t].value == v,
                                ),
                            ) =~= vs0.union(bound_values(nmv)));
                        }
                        let ghost mv = m@;
                        matches.push(m);
                        assert(matches@.map_values(|m: Match| m@) =~= msv0.push(mv));
                    },
                    Ok(None) => {},
                    Err(e) => {
                        return Err(e);
                    },
                }
            }
            i = i + 1;
        }
        Ok(matches)
    }

    /// One rewrite application driven by one match: stage brand-new
    /// right-hand-side nodes, delete match-bound nodes absent from the
    /// right-hand side (cascading to their edges), add the staged nodes, then
    /// instantiate every right-hand-side edge. A preserved node keeps its
    /// identity, type and attributes unchanged (the template's are not
    /// reapplied).
    fn apply_transformation(&self, graph: &mut Graph, m: &Match) -> (r: Result<(), String>)
        requires
            old(graph).wf(),
        ensures
            r is Ok,
            final(graph)@ == spec_apply_match(self@.rhs, old(graph)@, m@),
            final(graph).wf(),
    {
        let ghost rhs = self@.rhs;
        let ghost nm = m@.node_mapping;
        let mut staging = Graph::new();
        let mut k: usize = 0;
        while k < self.rhs.nodes.len()
            invariant
                0 <= k <= self.rhs.nodes.len(),
                rhs.nodes.len() == self.rhs.nodes.len(),
                staging@.edges.len() == 0,
                build_new_nodes(rhs.nodes, nm, 0, Seq::<NodeV>::empty()) == build_new_nodes(
                    rhs.nodes,
                    nm,
                    k as int,
                    staging@.nodes,
                ),
            decreases self.rhs.nodes.len() - k,
        {
            assert(rhs.nodes[k as int] == self.rhs.nodes@[k as int]@);
            let node_id: String = match map_lookup(&m.node_mapping, &self.rhs.nodes[k].id) {
                Some(mapped) => mapped.clone(),
                None => self.rhs.nodes[k].id.clone(),
            };
            assert(node_id@ == resolve_id(nm, rhs.nodes[k as int].id));
            if !map_has_value(&m.node_mapping, &node_id) {
                let mut node = Node::new(node_id);
                match &self.rhs.nodes[k].node_type {
                    Some(ty) => {
                        node = node.with_type(ty.clone());
                    },
                    None => {},
                }
                node = node.with_metadata_map(attrs_clone(&self.rhs.nodes[k].attributes));
                assert(node@ == template_node(
                    rhs.nodes[k as int],
                    resolve_id(nm, rhs.nodes[k as int].id),
                ));
                staging.add_node(node);
            }
            k = k + 1;
        }
        let ghost staged = staging@.nodes;
        assert(staged == build_new_nodes(rhs.nodes, nm, 0, Seq::<NodeV>::empty()));
        let ghost g0 = graph@;
        let mut k2: usize = 0;
        while k2 < m.node_mapping.len()
            invariant
                0 <= k2 <= m.node_mapping.len(),
                nm.len() == m.node_mapping.len(),
                graph.wf(),
                remove_unpreserved(g0, nm, rhs.nodes, 0) == remove_unpreserved(
                    graph@,
                    nm,
                    rhs.nodes,
                    k2 as int,
                ),
            decreases m.node_mapping.len() - k2,
        {
            assert(nm[k2 as int] == m.node_mapping@[k2 as int]@);
            if !contains_template(&self.rhs.nodes, &m.node_mapping[k2].key) {
                graph.remove_node(&m.node_mapping[k2].value);
            }
            k2 = k2 + 1;
        }
        assert(graph@ == remove_unpreserved(g0, nm, rhs.nodes, 0));
        let ghost g1 = graph@;
        let mut k3: usize = 0;
        while k3 < staging.nodes.len()
            invariant
                0 <= k3 <= staging.nodes.len(),
                staged.len() == staging.nodes.len(),
                staging@.nodes == staged,
                graph.wf(),
                add_nodes(g1, staged, 0) == add_nodes(graph@, staged, k3 as int),
            decreases staging.nodes.len() - k3,
        {
            assert(staged[k3 as int] == staging.nodes@[k3 as int]@);
            let node = node_clone(&staging.nodes[k3]);
            graph.add_node(node);
            k3 = k3 + 1;
        }
        assert(graph@ == add_nodes(g1, staged, 0));
        let ghost g2 = graph@;
        let mut k4: usize = 0;
        while k4 < self.rhs.edges.len()
            invariant
                0 <= k4 <= self.rhs.edges.len(),
                rhs.edges.len() == self.rhs.edges.len(),
                graph.wf(),
                add_rhs_edges(g2, rhs.edges, nm, 0) == add_rhs_edges(
                    graph@,
                    rhs.edges,
                    nm,
                    k4 as int,
                ),
            decreases self.rhs.edges.len() - k4,
        {
            assert(rhs.edges[k4 as int] == self.rhs.edges@[k4 as int]@);
            let source: String = match map_lookup(&m.node_mapping, &self.rhs.edges[k4].source) {
                Some(mapped) => mapped.clone(),
                None => self.rhs.edges[k4].source.clone(),
            };
            let target: String = match map_lookup(&m.node_mapping, &self.rhs.edges[k4].target) {
                Some(mapped) => mapped.clone(),
                None => self.rhs.edges[k4].target.clone(),
            };
            let edge = Edge::new(self.rhs.edges[k4].id.clone(), source, target).with_metadata_map(
                attrs_clone(&self.rhs.edges[k4].attributes),
            );
            assert(edge@ == template_edge(rhs.edges[k4 as int], nm));
            graph.add_edge(edge);
            k4 = k4 + 1;
        }
        assert(graph@ == add_rhs_edges(g2, rhs.edges, nm, 0));
        Ok(())
    }

    /// Up to `iterations` rounds of match-then-rewrite: each round runs one
    /// full matching pass over the current graph, stops early when no match
    /// is found (a fixpoint), and otherwise applies every match of the round
    /// in order (later rewrites of a round observe earlier ones). On error
    /// the graph keeps whatever rewrites completed before the failure; there
    /// is no rollback.
    pub fn apply(&self, graph: &mut Graph, iterations: usize) -> (r: Result<(), String>)
        requires
            old(graph).wf(),
        ensures
            final(graph).wf(),
            match r {
                Ok(_) => spec_apply(self@, old(graph)@, iterations as nat) == ApplyOutcome::Done(
                    final(graph)@,
                ),
                Err(_) => spec_apply(self@, old(graph)@, iterations as nat)
                    == ApplyOutcome::Failed(final(graph)@),
            },
    {
        let mut it: usize = 0;
        while it < iterations
            invariant
                0 <= it <= iterations,
                graph.wf(),
                spec_apply(self@, old(graph)@, iterations as nat) == spec_apply(
                    self@,
                    graph@,
                    (iterations - it) as nat,
                ),
            decreases iterations - it,
        {
            let matches = match self.find_matches(graph) {
                Ok(ms) => ms,
                Err(e) => {
                    return Err(e);
                },
            };
            let ghost msv = matches@.map_values(|m: Match| m@);
            if matches.len() == 0 {
                assert(msv =~= Seq::<MatchV>::empty());
                return Ok(());
            }
            let ghost ground = graph@;
            let mut mi: usize = 0;
            while mi < matches.len()
                invariant
                    0 <= mi <= matches.len(),
                    msv.len() == matches.len(),
                    msv == matches@.map_values(|m: Match| m@),
                    graph.wf(),
                    apply_matches(self@.rhs, ground, msv, 0) == apply_matches(
                        self@.rhs,
                        graph@,
                        msv,
                        mi as int,
                    ),
                decreases matches.len() - mi,
            {
                assert(msv[mi as int] == matches@[mi as int]@);
                match self.apply_transformation(graph, &matches[mi]) {
                    Ok(_) => {},
                    Err(e) => {
                        return Err(e);
                    },
                }
                mi = mi + 1;
            }
            assert(graph@ == apply_matches(self@.rhs, ground, msv, 0));
            it = it + 1;
        }
        Ok(())
    }
}

/// Applying a rule whose left-hand side currently has no match leaves the
/// graph unchanged, whatever the requested iteration count.
pub proof fn lemma_apply_fixpoint(rule: RuleV, g: GraphV, iters: nat)
    requires
        spec_find_matches(rule.lhs, g) == FindOutcome::Found(Seq::<MatchV>::empty()),
    ensures
        spec_apply(rule, g, iters) == ApplyOutcome::Done(g),
{
}

/// Induction behind the disjointness law: anchors are only drawn from
/// unvisited nodes, and for a pattern with at most one node template a
/// match's node mapping holds nothing but its anchor.
proof fn find_from_disjoint(
    p: PatternV,
    g: GraphV,
    i: int,
    visited: Set<Seq<char>>,
    acc: Seq<MatchV>,
    ms: Seq<MatchV>,
)
    requires
        p.nodes.len() <= 1,
        find_from(p, g, i, visited, acc) == FindOutcome::Found(ms),
        forall|a: int, b: int, v: Seq<char>|
            0 <= a < b < acc.len() && maps_to(acc[a].node_mapping, v) ==> !maps_to(
                acc[b].node_mapping,
                v,
            ),
        forall|a: int, v: Seq<char>|
            0 <= a < acc.len() && maps_to(acc[a].node_mapping, v) ==> visited.contains(v),
    ensures
        forall|a: int, b: int, v: Seq<char>|
            0 <= a < b < ms.len() && maps_to(ms[a].node_mapping, v) ==> !maps_to(
                ms[b].node_mapping,
                v,
            ),
    decreases g.nodes.len() - i,
{
    if i < 0 || i >= g.nodes.len() {
    } else if visited.contains(g.nodes[i].id) {
        find_from_disjoint(p, g, i + 1, visited, acc, ms);
    } else {
        let gid = g.nodes[i].id;
        match try_match_at(p, g, gid) {
            AttemptOutcome::NotMatched => {
                find_from_disjoint(p, g, i + 1, visited, acc, ms);
            },
            AttemptOutcome::BadRef => {},
            AttemptOutcome::Matched(m) => {
                let visited2 = visited.union(bound_values(m.node_mapping));
                let acc2 = acc.push(m);
                assert forall|v: Seq<char>| maps_to(m.node_mapping, v) implies v == gid by {
                    if p.nodes.len() == 0 {
                        assert(m.node_mapping =~= Seq::<BindingV>::empty());
                    } else {
                        let m0 = seq![BindingV { key: p.nodes[0].id, value: gid }];
                        assert(extend_nodes(g, p.nodes, m0, 1) == Some(m0));
                        assert(m.node_mapping == m0);
                    }
                }
                assert forall|a: int, b: int, v: Seq<char>|
                    0 <= a < b < acc2.len() && maps_to(acc2[a].node_mapping, v) implies !maps_to(
                    acc2[b].node_mapping,
                    v,
                ) by {
                    if b == acc2.len() - 1 {
                        if maps_to(acc2[b].node_mapping, v) {
                            assert(v == gid);
                            assert(visited.contains(v));
                        }
                    }
                }
                assert forall|a: int, v: Seq<char>|
                    0 <= a < acc2.len() && maps_to(acc2[a].node_mapping, v) implies
                    visited2.contains(v) by {
                    if a == acc2.len() - 1 {
                        assert(bound_values(m.node_mapping).contains(v));
                    }
                }
                find_from_disjoint(p, g, i + 1, visited2, acc2, ms);
            },
        }
    }
}

/// All values of a binding list are pairwise distinct.
pub open spec fn values_distinct(s: Seq<BindingV>) -> bool {
    forall|i: int, j: int| 0 <= i < j < s.len() ==> s[i].value != s[j].value
}

/// An insertion whose value is not yet mapped to keeps values distinct.
proof fn lemma_put_keeps_distinct(s: Seq<BindingV>, k: Seq<char>, v: Seq<char>)
    requires
        values_distinct(s),
        !maps_to(s, v),
    ensures
        values_distinct(map_put(s, k, v)),
{
    crate::types::lemma_key_index(s, |b: BindingV| b.key, k);
}

/// A found node candidate is not yet mapped to.
proof fn lemma_find_node_unmapped(g: GraphV, m: Seq<BindingV>, t: NodeDeclV, i: int, v: Seq<char>)
    requires
        find_node_from(g, m, t, i) == Some(v),
    ensures
        !maps_to(m, v),
    decreases g.nodes.len() - i,
{
    if 0 <= i < g.nodes.len() {
        if !maps_to(m, g.nodes[i].id) && node_satisfies(g.nodes[i], t) {
        } else {
            lemma_find_node_unmapped(g, m, t, i + 1, v);
        }
    }
}

/// A found edge candidate is not yet consumed.
proof fn lemma_find_edge_unmapped(
    g: GraphV,
    em: Seq<BindingV>,
    src: Seq<char>,
    tgt: Seq<char>,
    i: int,
    v: Seq<char>,
)
    requires
        find_edge_from(g, em, src, tgt, i) == Some(v),
    ensures
        !maps_to(em, v),
    decreases g.edges.len() - i,
{
    if 0 <= i < g.edges.len() {
        if !maps_to(em, g.edges[i].id) && g.edges[i].source == src && g.edges[i].target == tgt {
        } else {
            lemma_find_edge_unmapped(g, em, src, tgt, i + 1, v);
        }
    }
}

/// Greedy node extension keeps binding values distinct.
proof fn lemma_extend_nodes_distinct(
    g: GraphV,
    pnodes: Seq<NodeDeclV>,
    m: Seq<BindingV>,
    k: int,
    nm: Seq<BindingV>,
)
    requires
        values_distinct(m),
        extend_nodes(g, pnodes, m, k) == Some(nm),
    ensures
        values_distinct(nm),
    decreases pnodes.len() - k,
{
    if 0 <= k < pnodes.len() {
        match find_node_from(g, m, pnodes[k], 0) {
            None => {},
            Some(gid) => {
                lemma_find_node_unmapped(g, m, pnodes[k], 0, gid);
                lemma_put_keeps_distinct(m, pnodes[k].id, gid);
                lemma_extend_nodes_distinct(g, pnodes, map_put(m, pnodes[k].id, gid), k + 1, nm);
            },
        }
    }
}

/// Edge-template binding keeps binding values distinct.
proof fn lemma_extend_edges_distinct(
    g: GraphV,
    pedges: Seq<EdgeDeclV>,
    nm: Seq<BindingV>,
    em: Seq<BindingV>,
    k: int,
    out: Seq<BindingV>,
)
    requires
        values_distinct(em),
        extend_edges(g, pedges, nm, em, k) == EdgesOutcome::Bound(out),
    ensures
        values_distinct(out),
    decreases pedges.len() - k,
{
    if 0 <= k < pedges.len() {
        let pe = pedges[k];
        if map_has(nm, pe.source) && map_has(nm, pe.target) {
            match find_edge_from(g, em, map_get(nm, pe.source), map_get(nm, pe.target), 0) {
                None => {},
                Some(eid) => {
                    lemma_find_edge_unmapped(
                        g,
                        em,
                        map_get(nm, pe.source),
                        map_get(nm, pe.target),
                        0,
                        eid,
                    );
                    lemma_put_keeps_distinct(em, pe.id, eid);
                    lemma_extend_edges_distinct(g, pedges, nm, map_put(em, pe.id, eid), k + 1, out);
                },
            }
        }
    }
}

/// Injectivity of one match: within a single match no graph node id is bound
/// by two node templates, and no graph edge id by two edge templates. The
/// anchor starts the mapping alone, and every later binding is drawn from
/// the not-yet-used candidates only.
pub proof fn lemma_match_injective(p: PatternV, g: GraphV, gid: Seq<char>, m: MatchV)
    requires
        try_match_at(p, g, gid) == AttemptOutcome::Matched(m),
    ensures
        values_distinct(m.node_mapping),
        values_distinct(m.edge_mapping),
{
    if p.nodes.len() == 0 {
    } else {
        let m0 = seq![BindingV { key: p.nodes[0].id, value: gid }];
        assert(values_distinct(m0));
        match extend_nodes(g, p.nodes, m0, 1) {
            None => {},
            Some(nm) => {
                lemma_extend_nodes_distinct(g, p.nodes, m0, 1, nm);
                assert(values_distinct(Seq::<BindingV>::empty()));
                match extend_edges(g, p.edges, nm, Seq::<BindingV>::empty(), 0) {
                    EdgesOutcome::Bound(em) => {
                        lemma_extend_edges_distinct(
                            g,
                            p.edges,
                            nm,
                            Seq::<BindingV>::empty(),
                            0,
                            em,
                        );
                    },
                    EdgesOutcome::NoMatch => {},
                    EdgesOutcome::BadRef => {},
                }
            },
        }
    }
}

/// Every match of one matching pass is injective in this sense.
pub proof fn lemma_pass_matches_injective(p: PatternV, g: GraphV, ms: Seq<MatchV>)
    requires
        spec_find_matches(p, g) == FindOutcome::Found(ms),
    ensures
        forall|k: int|
            0 <= k < ms.len() ==> values_distinct((#[trigger] ms[k]).node_mapping)
                && values_distinct(ms[k].edge_mapping),
{
    lemma_find_from_injective(p, g, 0, Set::<Seq<char>>::empty(), Seq::<MatchV>::empty(), ms);
}

/// Induction behind `lemma_pass_matches_injective`.
proof fn lemma_find_from_injective(
    p: PatternV,
    g: GraphV,
    i: int,
    visited: Set<Seq<char>>,
    acc: Seq<MatchV>,
    ms: Seq<MatchV>,
)
    requires
        find_from(p, g, i, visited, acc) == FindOutcome::Found(ms),
        forall|k: int|
            0 <= k < acc.len() ==> values_distinct((#[trigger] acc[k]).node_mapping)
                && values_distinct(acc[k].edge_mapping),
    ensures
        forall|k: int|
            0 <= k < ms.len() ==> values_distinct((#[trigger] ms[k]).node_mapping)
                && values_distinct(ms[k].edge_mapping),
    decreases g.nodes.len() - i,
{
    if i < 0 || i >= g.nodes.len() {
    } else if visited.contains(g.nodes[i].id) {
        lemma_find_from_injective(p, g, i + 1, visited, acc, ms);
    } else {
        match try_match_at(p, g, g.nodes[i].id) {
            AttemptOutcome::NotMatched => {
                lemma_find_from_injective(p, g, i + 1, visited, acc, ms);
            },
            AttemptOutcome::BadRef => {},
            AttemptOutcome::Matched(m) => {
                lemma_match_injective(p, g, g.nodes[i].id, m);
                lemma_find_from_injective(
                    p,
                    g,
                    i + 1,
                    visited.union(bound_values(m.node_mapping)),
                    acc.push(m),
                    ms,
                );
            },
        }
    }
}

/// Disjointness of one matching pass: no two returned matches share a mapped
/// graph node id. The greedy extension phase does not consult the pass's
/// visited set, so this holds as stated for patterns with at most one node
/// template, where every mapped node is an anchor and anchors are never
/// reused.
pub proof fn lemma_matches_disjoint(p: PatternV, g: GraphV, ms: Seq<MatchV>)
    requires
        p.nodes.len() <= 1,
        spec_find_matches(p, g) == FindOutcome::Found(ms),
    ensures
        forall|a: int, b: int, v: Seq<char>|
            0 <= a < b < ms.len() && maps_to(ms[a].node_mapping, v) ==> !maps_to(
                ms[b].node_mapping,
                v,
            ),
{
    find_from_disjoint(p, g, 0, Set::<Seq<char>>::empty(), Seq::<MatchV>::empty(), ms);
}

} // verus!
