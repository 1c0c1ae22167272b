//! Core data model: metadata values, nodes, edges, and the graph store.
//!
//! The graph store keeps nodes and edges in insertion order (a deterministic
//! order, so match discovery and generator output are reproducible) and keys
//! them by id: inserting under an existing id overwrites in place, and
//! removing a node cascades to every edge incident to it.
use vstd::prelude::*;

verus! {

// ---------------------------------------------------------------------------
// Mathematical model
// ---------------------------------------------------------------------------

/// Model of a metadata value: text, 64-bit integer, IEEE 754 bit pattern of a
/// 64-bit float, or boolean. Equality is structural and variant-sensitive.
#[verifier::ext_equal]
pub enum MetaV {
    Str(Seq<char>),
    Int(i64),
    Float(u64),
    Bool(bool),
}

/// Model of one attribute entry: a key and its value.
#[verifier::ext_equal]
pub struct AttrV {
    pub key: Seq<char>,
    pub value: MetaV,
}

/// Model of a node: identity, type tag (empty means untyped), attribute
/// entries in insertion order with unique keys, and a decorative position
/// held as IEEE 754 bit patterns.
#[verifier::ext_equal]
pub struct NodeV {
    pub id: Seq<char>,
    pub node_type: Seq<char>,
    pub metadata: Seq<AttrV>,
    pub x_bits: u64,
    pub y_bits: u64,
}

/// Model of an edge: identity, endpoint node ids (not required to reference
/// existing nodes), type tag, and attribute entries.
#[verifier::ext_equal]
pub struct EdgeV {
    pub id: Seq<char>,
    pub source: Seq<char>,
    pub target: Seq<char>,
    pub edge_type: Seq<char>,
    pub metadata: Seq<AttrV>,
}

/// Model of a graph: node records and edge records, each in insertion order.
#[verifier::ext_equal]
pub struct GraphV {
    pub nodes: Seq<NodeV>,
    pub edges: Seq<EdgeV>,
}

// ---------------------------------------------------------------------------
// Keyed-sequence helpers (shared by attribute lists, the graph store, and
// match bindings): first index of a key, uniqueness of keys.
// ---------------------------------------------------------------------------

/// Index of the first element of `s` whose key (under `f`) is `k`, or -1.
pub open spec fn key_index<T>(s: Seq<T>, f: spec_fn(T) -> Seq<char>, k: Seq<char>) -> int
    decreases s.len(),
{
    if s.len() == 0 {
        -1
    } else if f(s[0]) == k {
        0
    } else {
        let r = key_index(s.drop_first(), f, k);
        if r < 0 {
            -1
        } else {
            r + 1
        }
    }
}

/// All keys of `s` (under `f`) are pairwise distinct.
pub open spec fn keys_unique<T>(s: Seq<T>, f: spec_fn(T) -> Seq<char>) -> bool {
    forall|i: int, j: int| 0 <= i < j < s.len() ==> f(s[i]) != f(s[j])
}

/// `key_index` finds the first occurrence: a nonnegative result points at an
/// element with key `k` and everything before it has another key; a negative
/// result means no element has key `k`.
pub proof fn lemma_key_index<T>(s: Seq<T>, f: spec_fn(T) -> Seq<char>, k: Seq<char>)
    ensures
        key_index(s, f, k) >= 0 ==> {
            &&& key_index(s, f, k) < s.len()
            &&& f(s[key_index(s, f, k)]) == k
            &&& forall|j: int| 0 <= j < key_index(s, f, k) ==> f(s[j]) != k
        },
        key_index(s, f, k) < 0 ==> forall|j: int| 0 <= j < s.len() ==> f(s[j]) != k,
    decreases s.len(),
{
    if s.len() > 0 {
        lemma_key_index(s.drop_first(), f, k);
        assert forall|j: int| 1 <= j < s.len() implies s.drop_first()[j - 1] == s[j] by {}
    }
}

/// Appending one element moves no existing key and registers the new key at
/// the end exactly when it was absent.
pub proof fn lemma_key_index_push<T>(s: Seq<T>, f: spec_fn(T) -> Seq<char>, x: T)
    ensures
        forall|k: Seq<char>|
            #[trigger] key_index(s.push(x), f, k) == (if key_index(s, f, k) >= 0 {
                key_index(s, f, k)
            } else if k == f(x) {
                s.len() as int
            } else {
                -1
            }),
    decreases s.len(),
{
    if s.len() == 0 {
        assert forall|k: Seq<char>|
            #[trigger] key_index(s.push(x), f, k) == (if key_index(s, f, k) >= 0 {
                key_index(s, f, k)
            } else if k == f(x) {
                s.len() as int
            } else {
                -1
            }) by {
            assert(s.push(x)[0] == x);
            assert(s.push(x).drop_first() =~= Seq::<T>::empty());
            assert(key_index(Seq::<T>::empty(), f, k) == -1);
            assert(key_index(s, f, k) == -1);
        }
    } else {
        lemma_key_index_push(s.drop_first(), f, x);
        assert forall|k: Seq<char>|
            #[trigger] key_index(s.push(x), f, k) == (if key_index(s, f, k) >= 0 {
                key_index(s, f, k)
            } else if k == f(x) {
                s.len() as int
            } else {
                -1
            }) by {
            assert(s.push(x)[0] == s[0]);
            assert(s.push(x).drop_first() =~= s.drop_first().push(x));
            assert(key_index(s.drop_first().push(x), f, k) == (if key_index(s.drop_first(), f, k)
                >= 0 {
                key_index(s.drop_first(), f, k)
            } else if k == f(x) {
                s.drop_first().len() as int
            } else {
                -1
            }));
        }
    }
}

// ---------------------------------------------------------------------------
// Executable metadata values and attribute lists
// ---------------------------------------------------------------------------

/// A metadata value. A float is carried as the IEEE 754 bit pattern of the
/// `f64`; callers that need the numeric value convert at the boundary.
/// Equality is structural and variant-sensitive: an integer 30 and a float
/// 30.0 are distinct.
#[derive(Debug)]
pub enum MetadataValue {
    Text(String),
    Integer(i64),
    Float(u64),
    Boolean(bool),
}

impl View for MetadataValue {
    type V = MetaV;

    open spec fn view(&self) -> MetaV {
        match self {
            MetadataValue::Text(s) => MetaV::Str(s@),
            MetadataValue::Integer(n) => MetaV::Int(*n),
            MetadataValue::Float(b) => MetaV::Float(*b),
            MetadataValue::Boolean(b) => MetaV::Bool(*b),
        }
    }
}

/// One attribute entry of a metadata list.
#[derive(Debug)]
pub struct Attr {
    pub key: String,
    pub value: MetadataValue,
}

impl View for Attr {
    type V = AttrV;

    open spec fn view(&self) -> AttrV {
        AttrV { key: self.key@, value: self.value@ }
    }
}

/// The model of an attribute list.
pub open spec fn attrs_view(v: Seq<Attr>) -> Seq<AttrV> {
    v.map_values(|a: Attr| a@)
}

/// Index of the first entry with key `k`, or -1.
pub open spec fn attr_index_of(s: Seq<AttrV>, k: Seq<char>) -> int {
    key_index(s, |a: AttrV| a.key, k)
}

/// Whether some entry has key `k`.
pub open spec fn attrs_has(s: Seq<AttrV>, k: Seq<char>) -> bool {
    attr_index_of(s, k) >= 0
}

/// The value of the first entry with key `k`.
pub open spec fn attrs_get(s: Seq<AttrV>, k: Seq<char>) -> MetaV
    recommends
        attrs_has(s, k),
{
    s[attr_index_of(s, k)].value
}

/// Insertion with overwrite: replace the first entry keyed `k` in place, or
/// append a new entry.
pub open spec fn attrs_put(s: Seq<AttrV>, k: Seq<char>, v: MetaV) -> Seq<AttrV> {
    if attrs_has(s, k) {
        s.update(attr_index_of(s, k), AttrV { key: k, value: v })
    } else {
        s.push(AttrV { key: k, value: v })
    }
}

/// `attrs_put` of every entry of `t` into `s`, in order.
pub open spec fn attrs_put_all(s: Seq<AttrV>, t: Seq<AttrV>) -> Seq<AttrV>
    decreases t.len(),
{
    if t.len() == 0 {
        s
    } else {
        attrs_put_all(attrs_put(s, t[0].key, t[0].value), t.drop_first())
    }
}

/// Structural equality test on metadata values.
pub fn meta_eq(a: &MetadataValue, b: &MetadataValue) -> (r: bool)
    ensures
        r == (a@ == b@),
{
    match (a, b) {
        (MetadataValue::Text(x), MetadataValue::Text(y)) => *x == *y,
        (MetadataValue::Integer(x), MetadataValue::Integer(y)) => *x == *y,
        (MetadataValue::Float(x), MetadataValue::Float(y)) => *x == *y,
        (MetadataValue::Boolean(x), MetadataValue::Boolean(y)) => *x == *y,
        _ => false,
    }
}

/// A copy of a metadata value, equal to the original in the model.
pub fn meta_clone(v: &MetadataValue) -> (r: MetadataValue)
    ensures
        r@ == v@,
{
    match v {
        MetadataValue::Text(s) => MetadataValue::Text(s.clone()),
        MetadataValue::Integer(n) => MetadataValue::Integer(*n),
        MetadataValue::Float(b) => MetadataValue::Float(*b),
        MetadataValue::Boolean(b) => MetadataValue::Boolean(*b),
    }
}

/// Index of the first entry with key `k`, if any.
pub fn attrs_find(v: &Vec<Attr>, k: &String) -> (r: Option<usize>)
    ensures
        match r {
            Some(i) => i == attr_index_of(attrs_view(v@), k@),
            None => attr_index_of(attrs_view(v@), k@) < 0,
        },
{
    let ghost s = attrs_view(v@);
    let mut i: usize = 0;
    while i < v.len()
        invariant
            0 <= i <= v.len(),
            s.len() == v.len(),
            forall|j: int| 0 <= j < i ==> s[j].key != k@,
        decreases v.len() - i,
    {
        assert(s[i as int] == v@[i as int]@);
        if v[i].key == *k {
            proof {
                lemma_key_index(s, |a: AttrV| a.key, k@);
            }
            return Some(i);
        }
        i = i + 1;
    }
    proof {
        lemma_key_index(s, |a: AttrV| a.key, k@);
    }
    None
}

/// Lookup by key: the value of the first entry keyed `k`, if any.
pub fn attrs_lookup<'a>(v: &'a Vec<Attr>, k: &String) -> (r: Option<&'a MetadataValue>)
    ensures
        match r {
            Some(mv) => attrs_has(attrs_view(v@), k@) && mv@ == attrs_get(attrs_view(v@), k@),
            None => !attrs_has(attrs_view(v@), k@),
        },
{
    match attrs_find(v, k) {
        Some(i) => {
            proof {
                lemma_key_index(attrs_view(v@), |a: AttrV| a.key, k@);
            }
            assert(attrs_view(v@)[i as int] == v@[i as int]@);
            Some(&v[i].value)
        },
        None => None,
    }
}

/// Insertion with overwrite: replace the first entry keyed `k`, or append.
pub fn attrs_insert(v: &mut Vec<Attr>, k: String, value: MetadataValue)
    ensures
        attrs_view(final(v)@) == attrs_put(attrs_view(old(v)@), k@, value@),
{
    let ghost s = attrs_view(old(v)@);
    match attrs_find(v, &k) {
        Some(i) => {
            proof {
                lemma_key_index(s, |a: AttrV| a.key, k@);
            }
            v.set(i, Attr { key: k, value });
            assert(attrs_view(v@) =~= s.update(
                attr_index_of(s, k@),
                AttrV { key: k@, value: value@ },
            ));
        },
        None => {
            v.push(Attr { key: k, value });
            assert(attrs_view(v@) =~= s.push(AttrV { key: k@, value: value@ }));
        },
    }
}

/// A copy of an attribute list, equal to the original in the model.
pub fn attrs_clone(v: &Vec<Attr>) -> (r: Vec<Attr>)
    ensures
        attrs_view(r@) == attrs_view(v@),
{
    let mut out: Vec<Attr> = Vec::new();
    let mut i: usize = 0;
    while i < v.len()
        invariant
            0 <= i <= v.len(),
            attrs_view(out@) =~= attrs_view(v@).subrange(0, i as int),
        decreases v.len() - i,
    {
        assert(attrs_view(v@)[i as int] == v@[i as int]@);
        out.push(Attr { key: v[i].key.clone(), value: meta_clone(&v[i].value) });
        assert(attrs_view(out@) =~= attrs_view(v@).subrange(0, i + 1 as int));
        i = i + 1;
    }
    assert(attrs_view(v@).subrange(0, v@.len() as int) =~= attrs_view(v@));
    out
}

// ---------------------------------------------------------------------------
// Nodes and edges
// ---------------------------------------------------------------------------

/// A graph node: identity, type tag (empty string means untyped), attributes,
/// and a decorative position carried as IEEE 754 bit patterns of the two
/// `f64` coordinates (position plays no part in matching or rewriting).
#[derive(Debug)]
pub struct Node {
    pub id: String,
    pub node_type: String,
    pub metadata: Vec<Attr>,
    pub x_bits: u64,
    pub y_bits: u64,
}

impl View for Node {
    type V = NodeV;

    open spec fn view(&self) -> NodeV {
        NodeV {
            id: self.id@,
            node_type: self.node_type@,
            metadata: attrs_view(self.metadata@),
            x_bits: self.x_bits,
            y_bits: self.y_bits,
        }
    }
}

impl Node {
    /// A fresh untyped node with no attributes at the origin.
    pub fn new(id: String) -> (r: Node)
        ensures
            r@ == (NodeV {
                id: id@,
                node_type: Seq::<char>::empty(),
                metadata: Seq::<AttrV>::empty(),
                x_bits: 0,
                y_bits: 0,
            }),
    {
        let r = Node {
            id,
            node_type: String::new(),
            metadata: Vec::new(),
            x_bits: 0,
            y_bits: 0,
        };
        assert(attrs_view(r.metadata@) =~= Seq::<AttrV>::empty());
        r
    }

    /// The same node with its type tag replaced.
    pub fn with_type(self, node_type: String) -> (r: Node)
        ensures
            r@ == (NodeV { node_type: node_type@, ..self@ }),
    {
        Node { node_type, ..self }
    }

    /// The same node with one attribute inserted (overwriting by key).
    pub fn with_metadata(self, key: String, value: MetadataValue) -> (r: Node)
        ensures
            r@ == (NodeV { metadata: attrs_put(self@.metadata, key@, value@), ..self@ }),
    {
        let mut metadata = self.metadata;
        attrs_insert(&mut metadata, key, value);
        Node { metadata, ..self }
    }

    /// The same node with every entry of `metadata` inserted, in order.
    pub fn with_metadata_map(self, metadata: Vec<Attr>) -> (r: Node)
        ensures
            r@ == (NodeV {
                metadata: attrs_put_all(self@.metadata, attrs_view(metadata@)),
                ..self@
            }),
    {
        let ghost extra = attrs_view(metadata@);
        let mut own = self.metadata;
        let mut rest = metadata;
        let mut i: usize = 0;
        assert(extra.subrange(0, extra.len() as int) =~= extra);
        while i < rest.len()
            invariant
                0 <= i <= rest.len(),
                extra.len() == rest.len(),
                attrs_view(rest@) == extra,
                attrs_put_all(attrs_view(own@), extra.subrange(i as int, extra.len() as int))
                    == attrs_put_all(self@.metadata, extra),
            decreases rest.len() - i,
        {
            let ghost tail = extra.subrange(i as int, extra.len() as int);
            assert(extra[i as int] == rest@[i as int]@);
            assert(tail[0] == extra[i as int]);
            attrs_insert(&mut own, rest[i].key.clone(), meta_clone(&rest[i].value));
            assert(tail.drop_first() =~= extra.subrange(i + 1 as int, extra.len() as int));
            i = i + 1;
        }
        assert(extra.subrange(rest.len() as int, extra.len() as int) =~= Seq::<AttrV>::empty());
        Node { metadata: own, ..self }
    }

    /// The same node moved to the given position (IEEE 754 bit patterns).
    pub fn with_position(self, x_bits: u64, y_bits: u64) -> (r: Node)
        ensures
            r@ == (NodeV { x_bits, y_bits, ..self@ }),
    {
        Node { x_bits, y_bits, ..self }
    }
}

/// A copy of a node, equal to the original in the model.
pub fn node_clone(n: &Node) -> (r: Node)
    ensures
        r@ == n@,
{
    Node {
        id: n.id.clone(),
        node_type: n.node_type.clone(),
        metadata: attrs_clone(&n.metadata),
        x_bits: n.x_bits,
        y_bits: n.y_bits,
    }
}

/// A directed edge record: identity, endpoint node ids, type tag, attributes.
/// Endpoints are plain id strings and are not required to reference existing
/// nodes; the store deliberately tolerates edges added before their nodes.
#[derive(Debug)]
pub struct Edge {
    pub id: String,
    pub source: String,
    pub target: String,
    pub edge_type: String,
    pub metadata: Vec<Attr>,
}

impl View for Edge {
    type V = EdgeV;

    open spec fn view(&self) -> EdgeV {
        EdgeV {
            id: self.id@,
            source: self.source@,
            target: self.target@,
            edge_type: self.edge_type@,
            metadata: attrs_view(self.metadata@),
        }
    }
}

impl Edge {
    /// A fresh untyped edge from `source` to `target` with no attributes.
    pub fn new(id: String, source: String, target: String) -> (r: Edge)
        ensures
            r@ == (EdgeV {
                id: id@,
                source: source@,
                target: target@,
                edge_type: Seq::<char>::empty(),
                metadata: Seq::<AttrV>::empty(),
            }),
    {
        let r = Edge {
            id,
            source,
            target,
            edge_type: String::new(),
            metadata: Vec::new(),
        };
        assert(attrs_view(r.metadata@) =~= Seq::<AttrV>::empty());
        r
    }

    /// The same edge with its type tag replaced.
    pub fn with_type(self, edge_type: String) -> (r: Edge)
        ensures
            r@ == (EdgeV { edge_type: edge_type@, ..self@ }),
    {
        Edge { edge_type, ..self }
    }

    /// The same edge with one attribute inserted (overwriting by key).
    pub fn with_metadata(self, key: String, value: MetadataValue) -> (r: Edge)
        ensures
            r@ == (EdgeV { metadata: attrs_put(self@.metadata, key@, value@), ..self@ }),
    {
        let mut metadata = self.metadata;
        attrs_insert(&mut metadata, key, value);
        Edge { metadata, ..self }
    }

    /// The same edge with every entry of `metadata` inserted, in order.
    pub fn with_metadata_map(self, metadata: Vec<Attr>) -> (r: Edge)
        ensures
            r@ == (EdgeV {
                metadata: attrs_put_all(self@.metadata, attrs_view(metadata@)),
                ..self@
            }),
    {
        let ghost extra = attrs_view(metadata@);
        let mut own = self.metadata;
        let mut rest = metadata;
        let mut i: usize = 0;
        assert(extra.subrange(0, extra.len() as int) =~= extra);
        while i < rest.len()
            invariant
                0 <= i <= rest.len(),
                extra.len() == rest.len(),
                attrs_view(rest@) == extra,
                attrs_put_all(attrs_view(own@), extra.subrange(i as int, extra.len() as int))
                    == attrs_put_all(self@.metadata, extra),
            decreases rest.len() - i,
        {
            let ghost tail = extra.subrange(i as int, extra.len() as int);
            assert(extra[i as int] == rest@[i as int]@);
            assert(tail[0] == extra[i as int]);
            attrs_insert(&mut own, rest[i].key.clone(), meta_clone(&rest[i].value));
            assert(tail.drop_first() =~= extra.subrange(i + 1 as int, extra.len() as int));
            i = i + 1;
        }
        assert(extra.subrange(rest.len() as int, extra.len() as int) =~= Seq::<AttrV>::empty());
        Edge { metadata: own, ..self }
    }
}

/// A copy of an edge, equal to the original in the model.
pub fn edge_clone(e: &Edge) -> (r: Edge)
    ensures
        r@ == e@,
{
    Edge {
        id: e.id.clone(),
        source: e.source.clone(),
        target: e.target.clone(),
        edge_type: e.edge_type.clone(),
        metadata: attrs_clone(&e.metadata),
    }
}

// ---------------------------------------------------------------------------
// The graph store
// ---------------------------------------------------------------------------

/// Index of the first node record with the given id, or -1.
pub open spec fn node_index_of(s: Seq<NodeV>, id: Seq<char>) -> int {
    key_index(s, |n: NodeV| n.id, id)
}

/// Whether some node record has the given id.
pub open spec fn has_node_id(s: Seq<NodeV>, id: Seq<char>) -> bool {
    node_index_of(s, id) >= 0
}

/// The first node record with the given id.
pub open spec fn node_at(s: Seq<NodeV>, id: Seq<char>) -> NodeV
    recommends
        has_node_id(s, id),
{
    s[node_index_of(s, id)]
}

/// Insertion with overwrite: replace the record at the id's position, or
/// append a new record (insertion order is kept stable).
pub open spec fn put_node(s: Seq<NodeV>, n: NodeV) -> Seq<NodeV> {
    if has_node_id(s, n.id) {
        s.update(node_index_of(s, n.id), n)
    } else {
        s.push(n)
    }
}

/// Removal of the node record with the given id, if present.
pub open spec fn drop_node(s: Seq<NodeV>, id: Seq<char>) -> Seq<NodeV> {
    if has_node_id(s, id) {
        s.remove(node_index_of(s, id))
    } else {
        s
    }
}

/// Index of the first edge record with the given id, or -1.
pub open spec fn edge_index_of(s: Seq<EdgeV>, id: Seq<char>) -> int {
    key_index(s, |e: EdgeV| e.id, id)
}

/// Whether some edge record has the given id.
pub open spec fn has_edge_id(s: Seq<EdgeV>, id: Seq<char>) -> bool {
    edge_index_of(s, id) >= 0
}

/// The first edge record with the given id.
pub open spec fn edge_at(s: Seq<EdgeV>, id: Seq<char>) -> EdgeV
    recommends
        has_edge_id(s, id),
{
    s[edge_index_of(s, id)]
}

/// Insertion with overwrite for edge records.
pub open spec fn put_edge(s: Seq<EdgeV>, e: EdgeV) -> Seq<EdgeV> {
    if has_edge_id(s, e.id) {
        s.update(edge_index_of(s, e.id), e)
    } else {
        s.push(e)
    }
}

/// Removal of the edge record with the given id, if present.
pub open spec fn drop_edge(s: Seq<EdgeV>, id: Seq<char>) -> Seq<EdgeV> {
    if has_edge_id(s, id) {
        s.remove(edge_index_of(s, id))
    } else {
        s
    }
}

/// Whether the edge touches the node id as source or target.
pub open spec fn edge_incident(e: EdgeV, id: Seq<char>) -> bool {
    e.source == id || e.target == id
}

/// The edge records not incident to `id`, in their original order.
pub open spec fn edges_keep(s: Seq<EdgeV>, id: Seq<char>) -> Seq<EdgeV>
    decreases s.len(),
{
    if s.len() == 0 {
        Seq::<EdgeV>::empty()
    } else {
        let rest = edges_keep(s.drop_first(), id);
        if edge_incident(s[0], id) {
            rest
        } else {
            seq![s[0]] + rest
        }
    }
}

/// Appending one edge extends `edges_keep` by that edge exactly when it is
/// not incident to the removed node.
pub proof fn lemma_edges_keep_snoc(s: Seq<EdgeV>, x: EdgeV, id: Seq<char>)
    ensures
        edges_keep(s.push(x), id) == if edge_incident(x, id) {
            edges_keep(s, id)
        } else {
            edges_keep(s, id).push(x)
        },
    decreases s.len(),
{
    if s.len() == 0 {
        assert(s.push(x)[0] == x);
        assert(s.push(x).drop_first() =~= Seq::<EdgeV>::empty());
        assert(edges_keep(s, id) == Seq::<EdgeV>::empty());
        assert(edges_keep(s.push(x).drop_first(), id) == Seq::<EdgeV>::empty());
        if edge_incident(x, id) {
            assert(edges_keep(s.push(x), id) == edges_keep(s, id));
        } else {
            assert(edges_keep(s.push(x), id) == seq![x] + Seq::<EdgeV>::empty());
            assert(seq![x] + Seq::<EdgeV>::empty() =~= edges_keep(s, id).push(x));
        }
    } else {
        assert(s.push(x).drop_first() =~= s.drop_first().push(x));
        assert(s.push(x)[0] == s[0]);
        lemma_edges_keep_snoc(s.drop_first(), x, id);
        let rest = edges_keep(s.drop_first(), id);
        if edge_incident(s[0], id) {
            assert(edges_keep(s, id) == rest);
            if edge_incident(x, id) {
                assert(edges_keep(s.push(x), id) == rest);
            } else {
                assert(edges_keep(s.push(x), id) == rest.push(x));
            }
        } else {
            assert(edges_keep(s, id) == seq![s[0]] + rest);
            if edge_incident(x, id) {
                assert(edges_keep(s.push(x), id) == seq![s[0]] + rest);
            } else {
                assert(edges_keep(s.push(x), id) == seq![s[0]] + rest.push(x));
                assert(seq![s[0]] + rest.push(x) =~= (seq![s[0]] + rest).push(x));
            }
        }
    }
}

/// What survives `edges_keep`: exactly the non-incident records, each taken
/// from the original sequence.
pub proof fn lemma_edges_keep(s: Seq<EdgeV>, id: Seq<char>)
    ensures
        forall|i: int|
            0 <= i < edges_keep(s, id).len() ==> !edge_incident(edges_keep(s, id)[i], id)
                && s.contains(edges_keep(s, id)[i]),
        forall|i: int|
            0 <= i < s.len() && !edge_incident(s[i], id) ==> edges_keep(s, id).contains(s[i]),
        edges_keep(s, id).len() <= s.len(),
    decreases s.len(),
{
    if s.len() > 0 {
        lemma_edges_keep(s.drop_first(), id);
        let rest = edges_keep(s.drop_first(), id);
        assert forall|i: int|
            0 <= i < edges_keep(s, id).len() implies !edge_incident(edges_keep(s, id)[i], id)
            && s.contains(edges_keep(s, id)[i]) by {
            if edge_incident(s[0], id) {
                assert(edges_keep(s, id) == rest);
                assert(s.drop_first().contains(rest[i]));
                let j = choose|j: int| 0 <= j < s.drop_first().len() && s.drop_first()[j] == rest[i];
                assert(s[j + 1] == rest[i]);
            } else {
                if i == 0 {
                    assert(s[0] == edges_keep(s, id)[0]);
                } else {
                    assert(edges_keep(s, id)[i] == rest[i - 1]);
                    assert(s.drop_first().contains(rest[i - 1]));
                    let j = choose|j: int|
                        0 <= j < s.drop_first().len() && s.drop_first()[j] == rest[i - 1];
                    assert(s[j + 1] == rest[i - 1]);
                }
            }
        }
        assert forall|i: int|
            0 <= i < s.len() && !edge_incident(s[i], id) implies edges_keep(s, id).contains(
            s[i],
        ) by {
            if i == 0 {
                assert(edges_keep(s, id)[0] == s[0]);
            } else {
                assert(s.drop_first()[i - 1] == s[i]);
                assert(rest.contains(s[i]));
                let j = choose|j: int| 0 <= j < rest.len() && rest[j] == s[i];
                if edge_incident(s[0], id) {
                    assert(edges_keep(s, id)[j] == s[i]);
                } else {
                    assert(edges_keep(s, id)[j + 1] == s[i]);
                }
            }
        }
    }
}

/// `edges_keep` keeps ids unique.
pub proof fn lemma_edges_keep_unique(s: Seq<EdgeV>, id: Seq<char>)
    requires
        keys_unique(s, |e: EdgeV| e.id),
    ensures
        keys_unique(edges_keep(s, id), |e: EdgeV| e.id),
    decreases s.len(),
{
    if s.len() > 0 {
        assert(keys_unique(s.drop_first(), |e: EdgeV| e.id));
        lemma_edges_keep_unique(s.drop_first(), id);
        lemma_edges_keep(s.drop_first(), id);
        let rest = edges_keep(s.drop_first(), id);
        if !edge_incident(s[0], id) {
            assert forall|i: int, j: int|
                0 <= i < j < edges_keep(s, id).len() implies edges_keep(s, id)[i].id
                != edges_keep(s, id)[j].id by {
                if i == 0 {
                    assert(edges_keep(s, id)[j] == rest[j - 1]);
                    assert(s.drop_first().contains(rest[j - 1]));
                    let m = choose|m: int|
                        0 <= m < s.drop_first().len() && s.drop_first()[m] == rest[j - 1];
                    assert(s[m + 1] == rest[j - 1]);
                    assert(s[0].id != s[m + 1].id);
                } else {
                    assert(edges_keep(s, id)[i] == rest[i - 1]);
                    assert(edges_keep(s, id)[j] == rest[j - 1]);
                }
            }
        }
    }
}

/// Well-formedness of a graph model: node ids unique among nodes, edge ids
/// unique among edges.
pub open spec fn graph_wf(g: GraphV) -> bool {
    keys_unique(g.nodes, |n: NodeV| n.id) && keys_unique(g.edges, |e: EdgeV| e.id)
}

/// The mutable graph store: node and edge records in insertion order, each
/// keyed by id (ids are unique within each of the two spaces; a node id and
/// an edge id may coincide).
#[derive(Debug)]
pub struct Graph {
    pub nodes: Vec<Node>,
    pub edges: Vec<Edge>,
}

impl View for Graph {
    type V = GraphV;

    open spec fn view(&self) -> GraphV {
        GraphV {
            nodes: self.nodes@.map_values(|n: Node| n@),
            edges: self.edges@.map_values(|e: Edge| e@),
        }
    }
}

impl Graph {
    /// Well-formedness: node ids are unique among nodes, edge ids among edges.
    pub open spec fn wf(self) -> bool {
        graph_wf(self@)
    }

    /// An empty graph.
    pub fn new() -> (r: Graph)
        ensures
            r@.nodes == Seq::<NodeV>::empty(),
            r@.edges == Seq::<EdgeV>::empty(),
            r.wf(),
    {
        let r = Graph { nodes: Vec::new(), edges: Vec::new() };
        assert(r@.nodes =~= Seq::<NodeV>::empty());
        assert(r@.edges =~= Seq::<EdgeV>::empty());
        r
    }

    /// Index of the node record with the given id, if present.
    fn find_node(&self, id: &String) -> (r: Option<usize>)
        ensures
            match r {
                Some(i) => i == node_index_of(self@.nodes, id@),
                None => !has_node_id(self@.nodes, id@),
            },
    {
        let ghost s = self@.nodes;
        let mut i: usize = 0;
        while i < self.nodes.len()
            invariant
                0 <= i <= self.nodes.len(),
                s.len() == self.nodes.len(),
                forall|j: int| 0 <= j < i ==> s[j].id != id@,
            decreases self.nodes.len() - i,
        {
            assert(s[i as int] == self.nodes@[i as int]@);
            if self.nodes[i].id == *id {
                proof {
                    lemma_key_index(s, |n: NodeV| n.id, id@);
                }
                return Some(i);
            }
            i = i + 1;
        }
        proof {
            lemma_key_index(s, |n: NodeV| n.id, id@);
        }
        None
    }

    /// Index of the edge record with the given id, if present.
    fn find_edge(&self, id: &String) -> (r: Option<usize>)
        ensures
            match r {
                Some(i) => i == edge_index_of(self@.edges, id@),
                None => !has_edge_id(self@.edges, id@),
            },
    {
        let ghost s = self@.edges;
        let mut i: usize = 0;
        while i < self.edges.len()
            invariant
                0 <= i <= self.edges.len(),
                s.len() == self.edges.len(),
                forall|j: int| 0 <= j < i ==> s[j].id != id@,
            decreases self.edges.len() - i,
        {
            assert(s[i as int] == self.edges@[i as int]@);
            if self.edges[i].id == *id {
                proof {
                    lemma_key_index(s, |e: EdgeV| e.id, id@);
                }
                return Some(i);
            }
            i = i + 1;
        }
        proof {
            lemma_key_index(s, |e: EdgeV| e.id, id@);
        }
        None
    }

    /// Inserts the node, overwriting any record under the same id in place
    /// (last write wins; no duplicate-id error).
    pub fn add_node(&mut self, node: Node)
        ensures
            final(self)@.nodes == put_node(old(self)@.nodes, node@),
            final(self)@.edges == old(self)@.edges,
            old(self).wf() ==> final(self).wf(),
    {
        proof {
            lemma_key_index(self@.nodes, |n: NodeV| n.id, node@.id);
        }
        match self.find_node(&node.id) {
            Some(i) => {
                self.nodes.set(i, node);
                assert(self@.nodes =~= put_node(old(self)@.nodes, node@));
            },
            None => {
                self.nodes.push(node);
                assert(self@.nodes =~= put_node(old(self)@.nodes, node@));
            },
        }
        assert(self@.edges =~= old(self)@.edges);
    }

    /// Inserts the edge, overwriting any record under the same id in place.
    pub fn add_edge(&mut self, edge: Edge)
        ensures
            final(self)@.edges == put_edge(old(self)@.edges, edge@),
            final(self)@.nodes == old(self)@.nodes,
            old(self).wf() ==> final(self).wf(),
    {
        proof {
            lemma_key_index(self@.edges, |e: EdgeV| e.id, edge@.id);
        }
        match self.find_edge(&edge.id) {
            Some(i) => {
                self.edges.set(i, edge);
                assert(self@.edges =~= put_edge(old(self)@.edges, edge@));
            },
            None => {
                self.edges.push(edge);
                assert(self@.edges =~= put_edge(old(self)@.edges, edge@));
            },
        }
        assert(self@.nodes =~= old(self)@.nodes);
    }

    /// Removes the node record with the given id, then removes every edge
    /// whose source or target equals that id (the cascading delete; the only
    /// automatic consistency enforcement in the store).
    pub fn remove_node(&mut self, id: &String)
        ensures
            final(self)@.nodes == drop_node(old(self)@.nodes, id@),
            final(self)@.edges == edges_keep(old(self)@.edges, id@),
            old(self).wf() ==> final(self).wf(),
    {
        proof {
            lemma_key_index(self@.nodes, |n: NodeV| n.id, id@);
        }
        match self.find_node(id) {
            Some(i) => {
                self.nodes.remove(i);
                assert(self@.nodes =~= drop_node(old(self)@.nodes, id@));
            },
            None => {
                assert(self@.nodes =~= drop_node(old(self)@.nodes, id@));
            },
        }
        let ghost olde = old(self)@.edges;
        let mut kept: Vec<Edge> = Vec::new();
        let mut i: usize = 0;
        assert(olde.subrange(0, 0) =~= Seq::<EdgeV>::empty());
        while i < self.edges.len()
            invariant
                0 <= i <= self.edges.len(),
                self.edges@.map_values(|e: Edge| e@) == olde,
                kept@.map_values(|e: Edge| e@) =~= edges_keep(olde.subrange(0, i as int), id@),
            decreases self.edges.len() - i,
        {
            assert(olde[i as int] == self.edges@[i as int]@);
            proof {
                lemma_edges_keep_snoc(olde.subrange(0, i as int), olde[i as int], id@);
                assert(olde.subrange(0, i + 1 as int) =~= olde.subrange(0, i as int).push(
                    olde[i as int],
                ));
            }
            let keep = !(self.edges[i].source == *id || self.edges[i].target == *id);
            if keep {
                let e = edge_clone(&self.edges[i]);
                kept.push(e);
                assert(kept@.map_values(|e: Edge| e@) =~= edges_keep(
                    olde.subrange(0, i as int),
                    id@,
                ).push(olde[i as int]));
            }
            i = i + 1;
        }
        assert(olde.subrange(0, olde.len() as int) =~= olde);
        self.edges = kept;
        proof {
            if old(self).wf() {
                lemma_edges_keep_unique(olde, id@);
                let s = old(self)@.nodes;
                lemma_key_index(s, |n: NodeV| n.id, id@);
                if has_node_id(s, id@) {
                    let k = node_index_of(s, id@);
                    assert forall|a: int, b: int|
                        0 <= a < b < self@.nodes.len() implies self@.nodes[a].id
                        != self@.nodes[b].id by {
                        assert(self@.nodes[a] == if a < k { s[a] } else { s[a + 1] });
                        assert(self@.nodes[b] == if b < k { s[b] } else { s[b + 1] });
                    }
                }
            }
        }
    }

    /// Removes only the edge record with the given id.
    pub fn remove_edge(&mut self, id: &String)
        ensures
            final(self)@.edges == drop_edge(old(self)@.edges, id@),
            final(self)@.nodes == old(self)@.nodes,
            old(self).wf() ==> final(self).wf(),
    {
        proof {
            lemma_key_index(self@.edges, |e: EdgeV| e.id, id@);
        }
        match self.find_edge(id) {
            Some(i) => {
                self.edges.remove(i);
                assert(self@.edges =~= drop_edge(old(self)@.edges, id@));
            },
            None => {
                assert(self@.edges =~= drop_edge(old(self)@.edges, id@));
            },
        }
        assert(self@.nodes =~= old(self)@.nodes);
    }

    /// The node record under the given id, if present.
    pub fn get_node<'a>(&'a self, id: &String) -> (r: Option<&'a Node>)
        ensures
            match r {
                Some(n) => has_node_id(self@.nodes, id@) && n@ == node_at(self@.nodes, id@),
                None => !has_node_id(self@.nodes, id@),
            },
    {
        proof {
            lemma_key_index(self@.nodes, |n: NodeV| n.id, id@);
        }
        match self.find_node(id) {
            Some(i) => {
                assert(self@.nodes[i as int] == self.nodes@[i as int]@);
                Some(&self.nodes[i])
            },
            None => None,
        }
    }

    /// The edge record under the given id, if present.
    pub fn get_edge<'a>(&'a self, id: &String) -> (r: Option<&'a Edge>)
        ensures
            match r {
                Some(e) => has_edge_id(self@.edges, id@) && e@ == edge_at(self@.edges, id@),
                None => !has_edge_id(self@.edges, id@),
            },
    {
        proof {
            lemma_key_index(self@.edges, |e: EdgeV| e.id, id@);
        }
        match self.find_edge(id) {
            Some(i) => {
                assert(self@.edges[i as int] == self.edges@[i as int]@);
                Some(&self.edges[i])
            },
            None => None,
        }
    }

    /// The number of node records.
    pub fn node_count(&self) -> (r: usize)
        ensures
            r == self@.nodes.len(),
    {
        self.nodes.len()
    }

    /// The number of edge records.
    pub fn edge_count(&self) -> (r: usize)
        ensures
            r == self@.edges.len(),
    {
        self.edges.len()
    }
}

/// Cascading delete: after `remove_node(id)`, no surviving edge has the
/// removed id as source or target, and every edge that was not incident to
/// that id survives.
pub proof fn lemma_cascading_delete(g: GraphV, id: Seq<char>)
    ensures
        forall|i: int|
            0 <= i < edges_keep(g.edges, id).len() ==> !edge_incident(
                edges_keep(g.edges, id)[i],
                id,
            ),
        forall|i: int|
            0 <= i < g.edges.len() && !edge_incident(g.edges[i], id) ==> edges_keep(
                g.edges,
                id,
            ).contains(g.edges[i]),
{
    lemma_edges_keep(g.edges, id);
}

} // verus!
