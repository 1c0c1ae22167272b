//! Patterns: small typed/attributed graph templates used as a rewrite rule's
//! left-hand side (match target) and right-hand side (replacement template),
//! and the Match produced when a pattern is embedded into a graph.
use vstd::prelude::*;
use crate::types::{Attr, AttrV, attrs_view, key_index};

verus! {

// ---------------------------------------------------------------------------
// Mathematical model
// ---------------------------------------------------------------------------

/// Model of a node template: a pattern-local id, an optional required type,
/// and required attribute entries.
#[verifier::ext_equal]
pub struct NodeDeclV {
    pub id: Seq<char>,
    pub node_type: Option<Seq<char>>,
    pub attributes: Seq<AttrV>,
}

/// Model of an edge template: a pattern-local id, pattern-local source and
/// target references into the node template ids, and attribute entries.
#[verifier::ext_equal]
pub struct EdgeDeclV {
    pub id: Seq<char>,
    pub source: Seq<char>,
    pub target: Seq<char>,
    pub directed: bool,
    pub attributes: Seq<AttrV>,
}

/// Model of a pattern: node templates and edge templates, in order.
#[verifier::ext_equal]
pub struct PatternV {
    pub nodes: Seq<NodeDeclV>,
    pub edges: Seq<EdgeDeclV>,
}

/// Model of one binding: a pattern-local id mapped to a concrete graph id.
#[verifier::ext_equal]
pub struct BindingV {
    pub key: Seq<char>,
    pub value: Seq<char>,
}

/// Model of a match: pattern-local node id -> graph node id, and
/// pattern-local edge id -> graph edge id, each in binding order.
#[verifier::ext_equal]
pub struct MatchV {
    pub node_mapping: Seq<BindingV>,
    pub edge_mapping: Seq<BindingV>,
}

// ---------------------------------------------------------------------------
// Binding maps (ordered, keyed by pattern-local id)
// ---------------------------------------------------------------------------

/// Index of the first binding with the given key, or -1.
pub open spec fn binding_index(s: Seq<BindingV>, k: Seq<char>) -> int {
    key_index(s, |b: BindingV| b.key, k)
}

/// Whether some binding has the given key.
pub open spec fn map_has(s: Seq<BindingV>, k: Seq<char>) -> bool {
    binding_index(s, k) >= 0
}

/// The value bound to the given key.
pub open spec fn map_get(s: Seq<BindingV>, k: Seq<char>) -> Seq<char>
    recommends
        map_has(s, k),
{
    s[binding_index(s, k)].value
}

/// Insertion with overwrite: replace the binding with this key in place, or
/// append a new binding.
pub open spec fn map_put(s: Seq<BindingV>, k: Seq<char>, v: Seq<char>) -> Seq<BindingV> {
    if map_has(s, k) {
        s.update(binding_index(s, k), BindingV { key: k, value: v })
    } else {
        s.push(BindingV { key: k, value: v })
    }
}

/// Whether some binding maps to the given graph id.
pub open spec fn maps_to(s: Seq<BindingV>, v: Seq<char>) -> bool {
    exists|i: int| 0 <= i < s.len() && s[i].value == v
}

// ---------------------------------------------------------------------------
// Executable templates
// ---------------------------------------------------------------------------

/// A node template of a pattern: symbolic pattern-local id, optional required
/// type, and the attribute subset a candidate node must carry.
#[derive(Debug)]
pub struct NodeDeclaration {
    pub id: String,
    pub node_type: Option<String>,
    pub attributes: Vec<Attr>,
}

impl View for NodeDeclaration {
    type V = NodeDeclV;

    open spec fn view(&self) -> NodeDeclV {
        NodeDeclV {
            id: self.id@,
            node_type: match self.node_type {
                Some(t) => Some(t@),
                None => None,
            },
            attributes: attrs_view(self.attributes@),
        }
    }
}

/// An edge template of a pattern: pattern-local id, pattern-local source and
/// target node template ids, and required attributes. `directed` records the
/// declaration's syntax; the store treats every edge as source -> target.
#[derive(Debug)]
pub struct EdgeDeclaration {
    pub id: String,
    pub source: String,
    pub target: String,
    pub directed: bool,
    pub attributes: Vec<Attr>,
}

impl View for EdgeDeclaration {
    type V = EdgeDeclV;

    open spec fn view(&self) -> EdgeDeclV {
        EdgeDeclV {
            id: self.id@,
            source: self.source@,
            target: self.target@,
            directed: self.directed,
            attributes: attrs_view(self.attributes@),
        }
    }
}

/// A pattern: an ordered sequence of node templates and edge templates. A
/// pattern with zero node templates matches trivially (the empty match).
#[derive(Debug)]
pub struct Pattern {
    pub nodes: Vec<NodeDeclaration>,
    pub edges: Vec<EdgeDeclaration>,
}

impl View for Pattern {
    type V = PatternV;

    open spec fn view(&self) -> PatternV {
        PatternV {
            nodes: self.nodes@.map_values(|n: NodeDeclaration| n@),
            edges: self.edges@.map_values(|e: EdgeDeclaration| e@),
        }
    }
}

/// One binding of a match.
#[derive(Debug)]
pub struct Binding {
    pub key: String,
    pub value: String,
}

impl View for Binding {
    type V = BindingV;

    open spec fn view(&self) -> BindingV {
        BindingV { key: self.key@, value: self.value@ }
    }
}

/// The model of a binding list.
pub open spec fn bindings_view(v: Seq<Binding>) -> Seq<BindingV> {
    v.map_values(|b: Binding| b@)
}

/// A concrete embedding of a pattern into a graph, produced per matching
/// attempt and consumed by one rewrite application.
#[derive(Debug)]
pub struct Match {
    pub node_mapping: Vec<Binding>,
    pub edge_mapping: Vec<Binding>,
}

impl View for Match {
    type V = MatchV;

    open spec fn view(&self) -> MatchV {
        MatchV {
            node_mapping: bindings_view(self.node_mapping@),
            edge_mapping: bindings_view(self.edge_mapping@),
        }
    }
}

// ---------------------------------------------------------------------------
// Executable binding-map operations
// ---------------------------------------------------------------------------

/// Index of the first binding with the given key, if any.
pub fn map_find(v: &Vec<Binding>, k: &String) -> (r: Option<usize>)
    ensures
        match r {
            Some(i) => i == binding_index(bindings_view(v@), k@),
            None => !map_has(bindings_view(v@), k@),
        },
{
    let ghost s = bindings_view(v@);
    let mut i: usize = 0;
    while i < v.len()
        invariant
            0 <= i <= v.len(),
            s.len() == v.len(),
            forall|j: int| 0 <= j < i ==> s[j].key != k@,
        decreases v.len() - i,
    {
        assert(s[i as int] == v@[i as int]@);
        if v[i].key == *k {
            proof {
                crate::types::lemma_key_index(s, |b: BindingV| b.key, k@);
            }
            return Some(i);
        }
        i = i + 1;
    }
    proof {
        crate::types::lemma_key_index(s, |b: BindingV| b.key, k@);
    }
    None
}

/// The value bound to the given key, if any.
pub fn map_lookup<'a>(v: &'a Vec<Binding>, k: &String) -> (r: Option<&'a String>)
    ensures
        match r {
            Some(gv) => map_has(bindings_view(v@), k@) && gv@ == map_get(bindings_view(v@), k@),
            None => !map_has(bindings_view(v@), k@),
        },
{
    match map_find(v, k) {
        Some(i) => {
            proof {
                crate::types::lemma_key_index(bindings_view(v@), |b: BindingV| b.key, k@);
            }
            assert(bindings_view(v@)[i as int] == v@[i as int]@);
            Some(&v[i].value)
        },
        None => None,
    }
}

/// Insertion with overwrite: replace the binding with this key, or append.
pub fn map_insert(v: &mut Vec<Binding>, k: String, value: String)
    ensures
        bindings_view(final(v)@) == map_put(bindings_view(old(v)@), k@, value@),
{
    let ghost s = bindings_view(old(v)@);
    match map_find(v, &k) {
        Some(i) => {
            proof {
                crate::types::lemma_key_index(s, |b: BindingV| b.key, k@);
            }
            v.set(i, Binding { key: k, value });
            assert(bindings_view(v@) =~= s.update(
                binding_index(s, k@),
                BindingV { key: k@, value: value@ },
            ));
        },
        None => {
            v.push(Binding { key: k, value });
            assert(bindings_view(v@) =~= s.push(BindingV { key: k@, value: value@ }));
        },
    }
}

/// Whether some binding maps to the given graph id.
pub fn map_has_value(v: &Vec<Binding>, gv: &String) -> (r: bool)
    ensures
        r == maps_to(bindings_view(v@), gv@),
{
    let ghost s = bindings_view(v@);
    let mut i: usize = 0;
    while i < v.len()
        invariant
            0 <= i <= v.len(),
            s.len() == v.len(),
            forall|j: int| 0 <= j < i ==> s[j].value != gv@,
        decreases v.len() - i,
    {
        assert(s[i as int] == v@[i as int]@);
        if v[i].value == *gv {
            return true;
        }
        i = i + 1;
    }
    false
}

} // verus!
