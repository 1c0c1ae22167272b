//! Built-in topology generators: pure functions from a parameter mapping to
//! a freshly built graph fragment, with proved node and edge counts.
use vstd::prelude::*;
use crate::types::{
    Attr, AttrV, Edge, EdgeV, Graph, GraphV, MetadataValue, MetaV, Node, NodeV, attrs_get,
    attrs_has, attrs_lookup, attrs_view, edge_at, edge_index_of, has_edge_id, has_node_id,
    lemma_key_index, lemma_key_index_push, node_at, node_index_of, put_edge, put_node,
};

verus! {

// ---------------------------------------------------------------------------
// Decimal rendering of indices, and id construction
// ---------------------------------------------------------------------------

/// The digit character for one decimal digit.
pub open spec fn dec_char(d: int) -> char {
    ((d + 48) as u8) as char
}

/// The separator character used inside composite ids.
pub open spec fn sep_char() -> char {
    (95 as u8) as char
}

/// The canonical decimal rendering of a nonnegative integer.
pub open spec fn dec_str(n: int) -> Seq<char>
    decreases n,
{
    if n < 0 {
        Seq::<char>::empty()
    } else if n < 10 {
        seq![dec_char(n)]
    } else {
        dec_str(n / 10).push(dec_char(n % 10))
    }
}

/// A decimal rendering is nonempty and holds digit characters only.
pub proof fn lemma_dec_str_digits(n: int)
    requires
        n >= 0,
    ensures
        dec_str(n).len() >= 1,
        forall|k: int|
            0 <= k < dec_str(n).len() ==> 48 <= (#[trigger] dec_str(n)[k]) as int <= 57,
        n >= 10 ==> dec_str(n).len() >= 2,
    decreases n,
{
    if n >= 10 {
        lemma_dec_str_digits(n / 10);
    }
}

/// Decimal renderings are injective.
pub proof fn lemma_dec_str_inj(a: int, b: int)
    requires
        a >= 0,
        b >= 0,
        dec_str(a) == dec_str(b),
    ensures
        a == b,
    decreases a,
{
    lemma_dec_str_digits(a);
    lemma_dec_str_digits(b);
    if a < 10 && b < 10 {
        assert(dec_str(a) == seq![dec_char(a)]);
        assert(dec_str(b) == seq![dec_char(b)]);
        assert(seq![dec_char(a)][0] == dec_char(a));
        assert(seq![dec_char(b)][0] == dec_char(b));
        assert(dec_char(a) == dec_char(b));
        assert(dec_char(a) as int == 48 + a);
        assert(dec_char(b) as int == 48 + b);
        assert(48 + a == 48 + b) by {
            assert(dec_char(a) as int == dec_char(b) as int);
        }
    } else if a < 10 || b < 10 {
        assert(dec_str(a).len() != dec_str(b).len());
    } else {
        assert(dec_str(a) == dec_str(a / 10).push(dec_char(a % 10)));
        assert(dec_str(b) == dec_str(b / 10).push(dec_char(b % 10)));
        assert(dec_str(a).last() == dec_char(a % 10));
        assert(dec_str(b).last() == dec_char(b % 10));
        assert(dec_char(a % 10) as int == 48 + a % 10);
        assert(dec_char(b % 10) as int == 48 + b % 10);
        assert(dec_char(a % 10) as int == dec_char(b % 10) as int);
        assert(a % 10 == b % 10);
        assert(dec_str(a).drop_last() =~= dec_str(a / 10));
        assert(dec_str(b).drop_last() =~= dec_str(b / 10));
        assert(dec_str(a / 10) == dec_str(b / 10));
        lemma_dec_str_inj(a / 10, b / 10);
        assert(a == 10 * (a / 10) + a % 10);
        assert(b == 10 * (b / 10) + b % 10);
    }
}

/// Appending to a common prefix is cancellative.
pub proof fn lemma_append_cancel<A>(p: Seq<A>, s1: Seq<A>, s2: Seq<A>)
    requires
        p + s1 == p + s2,
    ensures
        s1 == s2,
{
    assert((p + s1).len() == p.len() + s1.len());
    assert((p + s2).len() == p.len() + s2.len());
    assert(s1.len() == s2.len());
    assert forall|k: int| 0 <= k < s1.len() implies s1[k] == s2[k] by {
        assert((p + s1)[p.len() + k] == s1[k]);
        assert((p + s2)[p.len() + k] == s2[k]);
    }
    assert(s1 =~= s2);
}

/// A simple id: a prefix followed by a decimal index.
pub open spec fn simple_id(p: Seq<char>, a: int) -> Seq<char> {
    p + dec_str(a)
}

/// A composite id: a prefix, a decimal index, a separator, a second index.
pub open spec fn pair_id(p: Seq<char>, a: int, b: int) -> Seq<char> {
    p + dec_str(a) + seq![sep_char()] + dec_str(b)
}

/// Simple ids with a common prefix are injective in the index.
pub proof fn lemma_simple_id_inj(p: Seq<char>, a: int, b: int)
    requires
        a >= 0,
        b >= 0,
        simple_id(p, a) == simple_id(p, b),
    ensures
        a == b,
{
    lemma_append_cancel(p, dec_str(a), dec_str(b));
    lemma_dec_str_inj(a, b);
}

/// Composite ids with a common prefix are injective in the index pair.
pub proof fn lemma_pair_id_inj(p: Seq<char>, a1: int, b1: int, a2: int, b2: int)
    requires
        a1 >= 0,
        b1 >= 0,
        a2 >= 0,
        b2 >= 0,
        pair_id(p, a1, b1) == pair_id(p, a2, b2),
    ensures
        a1 == a2,
        b1 == b2,
{
    lemma_dec_str_digits(a1);
    lemma_dec_str_digits(a2);
    lemma_dec_str_digits(b1);
    lemma_dec_str_digits(b2);
    let t1 = dec_str(a1) + seq![sep_char()] + dec_str(b1);
    let t2 = dec_str(a2) + seq![sep_char()] + dec_str(b2);
    assert(p + dec_str(a1) + seq![sep_char()] + dec_str(b1) == p + t1) by {
        assert(p + dec_str(a1) + seq![sep_char()] + dec_str(b1) =~= p + t1);
    }
    assert(p + dec_str(a2) + seq![sep_char()] + dec_str(b2) == p + t2) by {
        assert(p + dec_str(a2) + seq![sep_char()] + dec_str(b2) =~= p + t2);
    }
    lemma_append_cancel(p, t1, t2);
    let l1 = dec_str(a1).len() as int;
    let l2 = dec_str(a2).len() as int;
    assert(t1[l1] == sep_char());
    assert(t2[l2] == sep_char());
    assert(sep_char() as int == 95);
    if l1 < l2 {
        assert(t2[l1] == dec_str(a2)[l1]);
        assert(48 <= t2[l1] as int <= 57);
        assert(t1[l1] == t2[l1]);
        assert(false);
    }
    if l2 < l1 {
        assert(t1[l2] == dec_str(a1)[l2]);
        assert(48 <= t1[l2] as int <= 57);
        assert(false);
    }
    assert(l1 == l2);
    assert(dec_str(a1) =~= t1.subrange(0, l1));
    assert(dec_str(a2) =~= t2.subrange(0, l1));
    lemma_dec_str_inj(a1, a2);
    assert(dec_str(b1) =~= t1.subrange(l1 + 1, t1.len() as int));
    assert(dec_str(b2) =~= t2.subrange(l2 + 1, t2.len() as int));
    lemma_dec_str_inj(b1, b2);
}

/// The shape of a composite id around its prefix: it is longer than the
/// prefix, carries the prefix verbatim, and a digit right after it.
pub proof fn lemma_pair_id_chars(p: Seq<char>, a: int, b: int)
    requires
        a >= 0,
        b >= 0,
    ensures
        pair_id(p, a, b).len() > p.len(),
        forall|i: int| 0 <= i < p.len() ==> #[trigger] pair_id(p, a, b)[i] == p[i],
        48 <= pair_id(p, a, b)[p.len() as int] as int <= 57,
{
    lemma_dec_str_digits(a);
    lemma_dec_str_digits(b);
    assert(pair_id(p, a, b)[p.len() as int] == dec_str(a)[0]);
}

/// The shape of a simple id around its prefix.
pub proof fn lemma_simple_id_chars(p: Seq<char>, a: int)
    requires
        a >= 0,
    ensures
        simple_id(p, a).len() > p.len(),
        forall|i: int| 0 <= i < p.len() ==> #[trigger] simple_id(p, a)[i] == p[i],
        48 <= simple_id(p, a)[p.len() as int] as int <= 57,
{
    lemma_dec_str_digits(a);
    assert(simple_id(p, a)[p.len() as int] == dec_str(a)[0]);
}

/// The single-digit string literal for a digit.
fn digit_str(d: usize) -> (r: &'static str)
    requires
        d < 10,
    ensures
        r@ == seq![dec_char(d as int)],
{
    proof {
        reveal_strlit("0");
        reveal_strlit("1");
        reveal_strlit("2");
        reveal_strlit("3");
        reveal_strlit("4");
        reveal_strlit("5");
        reveal_strlit("6");
        reveal_strlit("7");
        reveal_strlit("8");
        reveal_strlit("9");
    }
    match d {
        0 => "0",
        1 => "1",
        2 => "2",
        3 => "3",
        4 => "4",
        5 => "5",
        6 => "6",
        7 => "7",
        8 => "8",
        _ => "9",
    }
}

/// The decimal rendering of an index, as a string.
pub fn usize_to_dec(n: usize) -> (r: String)
    ensures
        r@ == dec_str(n as int),
    decreases n,
{
    if n < 10 {
        digit_str(n).to_owned()
    } else {
        let mut s = usize_to_dec(n / 10);
        s.append(digit_str(n % 10));
        assert(dec_str((n / 10) as int).push(dec_char((n % 10) as int)) =~= dec_str(
            (n / 10) as int,
        ) + seq![dec_char((n % 10) as int)]);
        s
    }
}

/// A simple id: the prefix followed by the decimal index.
pub fn make_simple_id(prefix: &String, a: usize) -> (r: String)
    ensures
        r@ == simple_id(prefix@, a as int),
{
    let mut s = prefix.clone();
    let d = usize_to_dec(a);
    s.append(d.as_str());
    s
}

/// A composite id: prefix, decimal index, separator, second decimal index.
pub fn make_pair_id(prefix: &String, a: usize, b: usize) -> (r: String)
    ensures
        r@ == pair_id(prefix@, a as int, b as int),
{
    proof {
        reveal_strlit("_");
        assert(sep_char() as int == 95);
    }
    let mut s = prefix.clone();
    let da = usize_to_dec(a);
    s.append(da.as_str());
    s.append("_");
    assert(s@ =~= prefix@ + dec_str(a as int) + seq![sep_char()]);
    let db = usize_to_dec(b);
    s.append(db.as_str());
    assert(s@ =~= pair_id(prefix@, a as int, b as int));
    s
}

// ---------------------------------------------------------------------------
// Parameter access
// ---------------------------------------------------------------------------

/// Powers of two over the integers.
pub open spec fn pow2i(k: int) -> int
    decreases k,
{
    if k <= 0 {
        1
    } else {
        2 * pow2i(k - 1)
    }
}

/// Powers of two are positive and monotone.
pub proof fn lemma_pow2i_pos(k: int)
    ensures
        pow2i(k) >= 1,
    decreases k,
{
    if k > 0 {
        lemma_pow2i_pos(k - 1);
    }
}

/// The doubling bound used by the float loops.
pub proof fn lemma_pow2i_11()
    ensures
        pow2i(11) == 2048,
{
    assert(pow2i(0) == 1);
    assert(pow2i(1) == 2);
    assert(pow2i(2) == 4);
    assert(pow2i(3) == 8);
    assert(pow2i(4) == 16);
    assert(pow2i(5) == 32);
    assert(pow2i(6) == 64);
    assert(pow2i(7) == 128);
    assert(pow2i(8) == 256);
    assert(pow2i(9) == 512);
    assert(pow2i(10) == 1024);
    assert(pow2i(11) == 2048);
}

/// Monotonicity of `pow2i`.
pub proof fn lemma_pow2i_mono(a: int, b: int)
    requires
        a <= b,
    ensures
        pow2i(a) <= pow2i(b),
    decreases b - a,
{
    lemma_pow2i_pos(a);
    if a < b {
        lemma_pow2i_mono(a, b - 1);
        lemma_pow2i_pos(b - 1);
    }
}

/// The count a 64-bit float bit pattern denotes when truncated toward zero
/// and saturated to the `usize` range (NaN and every negative value give 0,
/// positive infinity and every value at or above 2^64 give `usize::MAX`).
/// The fields are the IEEE 754 sign, biased exponent, and fraction.
pub open spec fn float_bits_count(bits: u64) -> int {
    let sign = bits >> 63u64;
    let expo = (bits >> 52u64) & 0x7ff;
    let frac = bits & 0xf_ffff_ffff_ffff;
    if expo == 0x7ff {
        if frac != 0 {
            0
        } else if sign == 1 {
            0
        } else {
            usize::MAX as int
        }
    } else if sign == 1 {
        0
    } else if expo < 1023 {
        0
    } else {
        let e = expo as int - 1023;
        let m = (0x10_0000_0000_0000u64 | frac) as int;
        let val = if e >= 64 {
            usize::MAX as int
        } else if e >= 52 {
            m * pow2i(e - 52)
        } else {
            m / pow2i(52 - e)
        };
        if val > usize::MAX as int {
            usize::MAX as int
        } else {
            val
        }
    }
}

/// Truncation of a 64-bit float, given as its bit pattern, to a count.
pub fn float_bits_to_count(bits: u64) -> (r: usize)
    ensures
        r as int == float_bits_count(bits),
{
    let sign = bits >> 63u64;
    let expo = (bits >> 52u64) & 0x7ff;
    let frac = bits & 0xf_ffff_ffff_ffff;
    assert(expo <= 0x7ff) by (bit_vector)
        requires
            expo == (bits >> 52u64) & 0x7ff,
    ;
    assert(frac < 0x10_0000_0000_0000) by (bit_vector)
        requires
            frac == bits & 0xf_ffff_ffff_ffff,
    ;
    if expo == 0x7ff {
        if frac != 0 {
            0
        } else if sign == 1 {
            0
        } else {
            usize::MAX
        }
    } else if sign == 1 {
        0
    } else if expo < 1023 {
        0
    } else {
        let ghost e = expo as int - 1023;
        let m: u64 = 0x10_0000_0000_0000u64 | frac;
        assert(0x10_0000_0000_0000 <= m < 0x20_0000_0000_0000) by (bit_vector)
            requires
                frac < 0x10_0000_0000_0000 && m == 0x10_0000_0000_0000u64 | frac,
        ;
        if expo >= 1023 + 64 {
            usize::MAX
        } else if expo >= 1023 + 52 {
            let mut v: u64 = m;
            let mut k: u64 = expo - 1023;
            proof {
                lemma_pow2i_pos(e - 52);
            }
            while k > 52
                invariant
                    52 <= k as int <= e,
                    e < 64,
                    0x10_0000_0000_0000 <= m < 0x20_0000_0000_0000,
                    v as int == (m as int) * pow2i(e - (k as int)),
                decreases k,
            {
                proof {
                    lemma_pow2i_11();
                    lemma_pow2i_pos(e - (k as int) + 1);
                    lemma_pow2i_mono(e - (k as int) + 1, 11);
                    assert((m as int) * pow2i(e - (k as int) + 1) < 0x20_0000_0000_0000 * 2048)
                        by (nonlinear_arith)
                        requires
                            (m as int) < 0x20_0000_0000_0000 && 1 <= pow2i(e - (k as int) + 1)
                                <= 2048,
                    ;
                    assert(pow2i(e - (k as int) + 1) == 2 * pow2i(e - (k as int)));
                    assert((m as int) * pow2i(e - (k as int) + 1) == 2 * ((m as int) * pow2i(
                        e - (k as int),
                    ))) by (nonlinear_arith)
                        requires
                            pow2i(e - (k as int) + 1) == 2 * pow2i(e - (k as int)),
                    ;
                }
                v = v * 2;
                k = k - 1;
            }
            if v > usize::MAX as u64 {
                usize::MAX
            } else {
                v as usize
            }
        } else {
            let mut v: u64 = m;
            let mut k: u64 = expo - 1023;
            proof {
                lemma_pow2i_pos(52 - e);
            }
            while k < 52
                invariant
                    e <= k as int <= 52,
                    0 <= e,
                    0x10_0000_0000_0000 <= m < 0x20_0000_0000_0000,
                    v as int == (m as int) / pow2i(k as int - e),
                decreases 52 - k,
            {
                proof {
                    lemma_pow2i_pos(k as int - e);
                    assert(pow2i(k as int - e + 1) == 2 * pow2i(k as int - e));
                    vstd::arithmetic::div_mod::lemma_div_denominator(
                        m as int,
                        pow2i(k as int - e),
                        2,
                    );
                }
                v = v / 2;
                k = k + 1;
            }
            if v > usize::MAX as u64 {
                usize::MAX
            } else {
                v as usize
            }
        }
    }
}

/// The count a parameter denotes: a nonnegative integer taken as is, a
/// negative integer clamped to zero, a float truncated toward zero and
/// saturated; text and boolean values (and a missing key) denote nothing.
pub open spec fn param_count_ok(ps: Seq<AttrV>, k: Seq<char>) -> bool {
    attrs_has(ps, k) && match attrs_get(ps, k) {
        MetaV::Int(_) => true,
        MetaV::Float(_) => true,
        _ => false,
    }
}

/// The count value of a parameter.
pub open spec fn param_count(ps: Seq<AttrV>, k: Seq<char>) -> int
    recommends
        param_count_ok(ps, k),
{
    match attrs_get(ps, k) {
        MetaV::Int(n) => if n < 0 {
            0
        } else if n as int > usize::MAX as int {
            usize::MAX as int
        } else {
            n as int
        },
        MetaV::Float(bits) => float_bits_count(bits),
        _ => 0,
    }
}

/// The text value of a parameter, or the default.
pub open spec fn param_string(ps: Seq<AttrV>, k: Seq<char>, default: Seq<char>) -> Seq<char> {
    if attrs_has(ps, k) {
        match attrs_get(ps, k) {
            MetaV::Str(s) => s,
            _ => default,
        }
    } else {
        default
    }
}

/// The boolean value of a parameter, or the default.
pub open spec fn param_bool(ps: Seq<AttrV>, k: Seq<char>, default: bool) -> bool {
    if attrs_has(ps, k) {
        match attrs_get(ps, k) {
            MetaV::Bool(b) => b,
            _ => default,
        }
    } else {
        default
    }
}

/// An integer-valued parameter: a missing key or a non-numeric value is an
/// error; negative values clamp to zero; float values truncate toward zero.
fn get_param_int(params: &Vec<Attr>, key: &String) -> (r: Result<usize, String>)
    ensures
        match r {
            Ok(c) => param_count_ok(attrs_view(params@), key@) && c as int == param_count(
                attrs_view(params@),
                key@,
            ),
            Err(_) => !param_count_ok(attrs_view(params@), key@),
        },
{
    match attrs_lookup(params, key) {
        Some(MetadataValue::Integer(n)) => {
            if *n < 0 {
                Ok(0)
            } else if (*n as u64) > (usize::MAX as u64) {
                Ok(usize::MAX)
            } else {
                Ok(*n as usize)
            }
        },
        Some(MetadataValue::Float(bits)) => Ok(float_bits_to_count(*bits)),
        _ => {
            let mut msg = "Missing or invalid ".to_owned();
            msg.append(key.as_str());
            msg.append(" parameter");
            Err(msg)
        },
    }
}

/// A text-valued parameter with a default.
fn get_param_string(params: &Vec<Attr>, key: &String, default: &str) -> (r: String)
    ensures
        r@ == param_string(attrs_view(params@), key@, default@),
{
    match attrs_lookup(params, key) {
        Some(MetadataValue::Text(s)) => s.clone(),
        _ => default.to_owned(),
    }
}

/// A boolean-valued parameter with a default.
fn get_param_bool(params: &Vec<Attr>, key: &String, default: bool) -> (r: bool)
    ensures
        r == param_bool(attrs_view(params@), key@, default),
{
    match attrs_lookup(params, key) {
        Some(MetadataValue::Boolean(b)) => *b,
        _ => default,
    }
}

// ---------------------------------------------------------------------------
// Generators
// ---------------------------------------------------------------------------

/// The number of undirected all-to-all edges among the first `i` of `n`
/// nodes, each node paired with every later one.
pub open spec fn tri_sum(n: int, i: int) -> int
    decreases i,
{
    if i <= 0 {
        0
    } else {
        tri_sum(n, i - 1) + (n - i)
    }
}

/// Closed form of the triangular sum.
pub proof fn lemma_tri_sum(n: int, i: int)
    requires
        0 <= i <= n,
    ensures
        2 * tri_sum(n, i) == i * (2 * n - i - 1),
        tri_sum(n, i) >= 0,
    decreases i,
{
    if i > 0 {
        lemma_tri_sum(n, i - 1);
        assert(tri_sum(n, i) == tri_sum(n, i - 1) + (n - i));
        assert(2 * tri_sum(n, i - 1) == (i - 1) * (2 * n - i));
        assert((i - 1) * (2 * n - i) + 2 * (n - i) == i * (2 * n - i - 1)) by (nonlinear_arith);
    } else {
        assert(tri_sum(n, i) == 0);
    }
}

/// Proof bookkeeping for adding one fresh node `simple_id(pfx, i)` to a graph
/// whose node ids are `simple_id(pfx, t)` for `t < i`.
proof fn lemma_fresh_simple_node(g: GraphV, pfx: Seq<char>, i: int)
    requires
        forall|t: int| 0 <= t < g.nodes.len() ==> (#[trigger] g.nodes[t]).id == simple_id(pfx, t),
        g.nodes.len() == i,
        0 <= i,
    ensures
        !has_node_id(g.nodes, simple_id(pfx, i)),
{
    lemma_key_index(g.nodes, |nd: NodeV| nd.id, simple_id(pfx, i));
    if has_node_id(g.nodes, simple_id(pfx, i)) {
        let t = node_index_of(g.nodes, simple_id(pfx, i));
        lemma_simple_id_inj(pfx, t, i);
    }
}

/// The bare node record a generator creates for index `t`.
pub open spec fn gen_node(pfx: Seq<char>, t: int) -> NodeV {
    NodeV {
        id: simple_id(pfx, t),
        node_type: Seq::<char>::empty(),
        metadata: Seq::<AttrV>::empty(),
        x_bits: 0,
        y_bits: 0,
    }
}

/// The bare edge record a generator creates: its id names the index pair
/// `(x, y)`, and it runs from node index `s` to node index `t`.
pub open spec fn gen_edge(ep: Seq<char>, pfx: Seq<char>, x: int, y: int, s: int, t: int) -> EdgeV {
    EdgeV {
        id: pair_id(ep, x, y),
        source: simple_id(pfx, s),
        target: simple_id(pfx, t),
        edge_type: Seq::<char>::empty(),
        metadata: Seq::<AttrV>::empty(),
    }
}

/// Appending an edge under a fresh id keeps every earlier lookup intact and
/// makes the new record retrievable under its id.
pub proof fn lemma_put_edge_keeps(s: Seq<EdgeV>, e: EdgeV)
    requires
        !has_edge_id(s, e.id),
    ensures
        put_edge(s, e) == s.push(e),
        forall|k: Seq<char>|
            #[trigger] has_edge_id(s, k) ==> has_edge_id(s.push(e), k) && edge_at(s.push(e), k)
                == edge_at(s, k),
        has_edge_id(s.push(e), e.id),
        edge_at(s.push(e), e.id) == e,
{
    lemma_key_index_push(s, |ed: EdgeV| ed.id, e);
    assert forall|k: Seq<char>| #[trigger] has_edge_id(s, k) implies has_edge_id(s.push(e), k)
        && edge_at(s.push(e), k) == edge_at(s, k) by {
        lemma_key_index(s, |ed: EdgeV| ed.id, k);
    }
}

/// Appending a node under a fresh id keeps every earlier lookup intact and
/// makes the new record retrievable under its id.
pub proof fn lemma_put_node_keeps(s: Seq<NodeV>, n: NodeV)
    requires
        !has_node_id(s, n.id),
    ensures
        put_node(s, n) == s.push(n),
        forall|k: Seq<char>|
            #[trigger] has_node_id(s, k) ==> has_node_id(s.push(n), k) && node_at(s.push(n), k)
                == node_at(s, k),
        has_node_id(s.push(n), n.id),
        node_at(s.push(n), n.id) == n,
{
    lemma_key_index_push(s, |nd: NodeV| nd.id, n);
    assert forall|k: Seq<char>| #[trigger] has_node_id(s, k) implies has_node_id(s.push(n), k)
        && node_at(s.push(n), k) == node_at(s, k) by {
        lemma_key_index(s, |nd: NodeV| nd.id, k);
    }
}

/// The complete graph on `nodes=N` nodes: every unordered pair is connected
/// once (or every ordered pair, when `directed` is set).
pub fn generate_complete(params: &Vec<Attr>) -> (r: Result<Graph, String>)
    ensures
        ({
            let ps = attrs_view(params@);
            match r {
                Ok(g) => {
                    &&& param_count_ok(ps, "nodes"@)
                    &&& g.wf()
                    &&& g@.nodes.len() == param_count(ps, "nodes"@)
                    &&& g@.edges.len() == ({
                        let n = param_count(ps, "nodes"@);
                        if param_bool(ps, "directed"@, false) {
                            n * (n - 1)
                        } else {
                            n * (n - 1) / 2
                        }
                    })
                    &&& ({
                        let n = param_count(ps, "nodes"@);
                        let pfx = param_string(ps, "prefix"@, "n"@);
                        &&& (forall|t: int| 0 <= t < n ==> g@.nodes[t] == gen_node(pfx, t))
                        &&& (!param_bool(ps, "directed"@, false) ==> forall|x: int, y: int|
                            0 <= x < y < n ==> has_edge_id(g@.edges, #[trigger] pair_id("e"@, x, y))
                                && edge_at(g@.edges, pair_id("e"@, x, y)) == gen_edge(
                                "e"@,
                                pfx,
                                x,
                                y,
                                x,
                                y,
                            ))
                        &&& (param_bool(ps, "directed"@, false) ==> forall|x: int, y: int|
                            0 <= x < n && 0 <= y < n && x != y ==> has_edge_id(
                                g@.edges,
                                #[trigger] pair_id("e"@, x, y),
                            ) && edge_at(g@.edges, pair_id("e"@, x, y)) == gen_edge(
                                "e"@,
                                pfx,
                                x,
                                y,
                                x,
                                y,
                            ))
                    })
                },
                Err(_) => !param_count_ok(ps, "nodes"@),
            }
        }),
{
    let ghost ps = attrs_view(params@);
    let n = match get_param_int(params, &"nodes".to_owned()) {
        Ok(v) => v,
        Err(e) => {
            return Err(e);
        },
    };
    let prefix = get_param_string(params, &"prefix".to_owned(), "n");
    let directed = get_param_bool(params, &"directed".to_owned(), false);
    let ghost pfx = prefix@;
    let mut graph = Graph::new();
    let mut i: usize = 0;
    while i < n
        invariant
            0 <= i <= n,
            graph.wf(),
            graph@.edges.len() == 0,
            graph@.nodes.len() == i,
            forall|t: int| 0 <= t < i ==> #[trigger] graph@.nodes[t] == gen_node(pfx, t),
        decreases n - i,
    {
        proof {
            lemma_fresh_simple_node(graph@, pfx, i as int);
        }
        graph.add_node(Node::new(make_simple_id(&prefix, i)));
        i = i + 1;
    }
    let epre = "e".to_owned();
    let ghost ep = epre@;
    let ghost mut pairs: Seq<(int, int)> = Seq::<(int, int)>::empty();
    if !directed {
        let mut a: usize = 0;
        while a < n
            invariant
                0 <= a <= n,
                graph.wf(),
                graph@.nodes.len() == n,
                forall|t: int| 0 <= t < n ==> #[trigger] graph@.nodes[t] == gen_node(pfx, t),
                graph@.edges.len() == tri_sum(n as int, a as int),
                pairs.len() == graph@.edges.len(),
                forall|k: int|
                    0 <= k < pairs.len() ==> #[trigger] graph@.edges[k] == gen_edge(
                        ep,
                        pfx,
                        pairs[k].0,
                        pairs[k].1,
                        pairs[k].0,
                        pairs[k].1,
                    ),
                forall|k: int|
                    0 <= k < pairs.len() ==> 0 <= (#[trigger] pairs[k]).0 < pairs[k].1 < n
                        && pairs[k].0 < a,
                forall|x: int, y: int|
                    0 <= x < y < n && x < a ==> has_edge_id(
                        graph@.edges,
                        #[trigger] pair_id(ep, x, y),
                    ) && edge_at(graph@.edges, pair_id(ep, x, y)) == gen_edge(ep, pfx, x, y, x, y),
            decreases n - a,
        {
            let mut b: usize = a + 1;
            proof {
                lemma_tri_sum(n as int, a as int);
            }
            while b < n
                invariant
                    a < b <= n,
                    a < n,
                    graph.wf(),
                    graph@.nodes.len() == n,
                    forall|t: int| 0 <= t < n ==> #[trigger] graph@.nodes[t] == gen_node(pfx, t),
                    graph@.edges.len() == tri_sum(n as int, a as int) + (b - a - 1),
                    pairs.len() == graph@.edges.len(),
                    forall|k: int|
                        0 <= k < pairs.len() ==> #[trigger] graph@.edges[k] == gen_edge(
                            ep,
                            pfx,
                            pairs[k].0,
                            pairs[k].1,
                            pairs[k].0,
                            pairs[k].1,
                        ),
                    forall|k: int|
                        0 <= k < pairs.len() ==> 0 <= (#[trigger] pairs[k]).0 < pairs[k].1 < n
                            && (pairs[k].0 < a || (pairs[k].0 == a && pairs[k].1 < b)),
                    forall|x: int, y: int|
                        0 <= x < y < n && (x < a || (x == a && y < b)) ==> has_edge_id(
                            graph@.edges,
                            #[trigger] pair_id(ep, x, y),
                        ) && edge_at(graph@.edges, pair_id(ep, x, y)) == gen_edge(
                            ep,
                            pfx,
                            x,
                            y,
                            x,
                            y,
                        ),
                decreases n - b,
            {
                proof {
                    lemma_key_index(graph@.edges, |ed: EdgeV| ed.id, pair_id(
                        ep,
                        a as int,
                        b as int,
                    ));
                    if has_edge_id(graph@.edges, pair_id(ep, a as int, b as int)) {
                        let kx = edge_index_of(graph@.edges, pair_id(ep, a as int, b as int));
                        lemma_pair_id_inj(ep, pairs[kx].0, pairs[kx].1, a as int, b as int);
                        assert(false);
                    }
                }
                let e = Edge::new(
                    make_pair_id(&epre, a, b),
                    make_simple_id(&prefix, a),
                    make_simple_id(&prefix, b),
                );
                proof {
                    lemma_put_edge_keeps(graph@.edges, e@);
                }
                graph.add_edge(e);
                proof {
                    pairs = pairs.push((a as int, b as int));
                }
                b = b + 1;
            }
            assert(tri_sum(n as int, a + 1 as int) == tri_sum(n as int, a as int) + (n - a - 1));
            a = a + 1;
        }
        proof {
            lemma_tri_sum(n as int, n as int);
            assert(graph@.edges.len() == (n as int) * (n as int - 1) / 2);
        }
    } else {
        let mut a: usize = 0;
        while a < n
            invariant
                0 <= a <= n,
                graph.wf(),
                graph@.nodes.len() == n,
                forall|t: int| 0 <= t < n ==> #[trigger] graph@.nodes[t] == gen_node(pfx, t),
                graph@.edges.len() == a * ((n as int) - 1),
                pairs.len() == graph@.edges.len(),
                forall|k: int|
                    0 <= k < pairs.len() ==> #[trigger] graph@.edges[k] == gen_edge(
                        ep,
                        pfx,
                        pairs[k].0,
                        pairs[k].1,
                        pairs[k].0,
                        pairs[k].1,
                    ),
                forall|k: int|
                    0 <= k < pairs.len() ==> 0 <= (#[trigger] pairs[k]).0 < n && 0 <= pairs[k].1
                        < n && pairs[k].0 != pairs[k].1 && pairs[k].0 < a,
                forall|x: int, y: int|
                    0 <= x < n && 0 <= y < n && x != y && x < a ==> has_edge_id(
                        graph@.edges,
                        #[trigger] pair_id(ep, x, y),
                    ) && edge_at(graph@.edges, pair_id(ep, x, y)) == gen_edge(ep, pfx, x, y, x, y),
            decreases n - a,
        {
            let mut b: usize = 0;
            while b < n
                invariant
                    0 <= b <= n,
                    a < n,
                    graph.wf(),
                    graph@.nodes.len() == n,
                    graph@.edges.len() == a * ((n as int) - 1) + (if b <= a {
                        b as int
                    } else {
                        b - 1
                    }),
                    pairs.len() == graph@.edges.len(),
                    forall|t: int| 0 <= t < n ==> #[trigger] graph@.nodes[t] == gen_node(pfx, t),
                    forall|k: int|
                        0 <= k < pairs.len() ==> #[trigger] graph@.edges[k] == gen_edge(
                            ep,
                            pfx,
                            pairs[k].0,
                            pairs[k].1,
                            pairs[k].0,
                            pairs[k].1,
                        ),
                    forall|k: int|
                        0 <= k < pairs.len() ==> 0 <= (#[trigger] pairs[k]).0 < n && 0
                            <= pairs[k].1 < n && pairs[k].0 != pairs[k].1 && (pairs[k].0 < a || (
                        pairs[k].0 == a && pairs[k].1 < b)),
                    forall|x: int, y: int|
                        0 <= x < n && 0 <= y < n && x != y && (x < a || (x == a && y < b)) ==>
                            has_edge_id(graph@.edges, #[trigger] pair_id(ep, x, y)) && edge_at(
                            graph@.edges,
                            pair_id(ep, x, y),
                        ) == gen_edge(ep, pfx, x, y, x, y),
                decreases n - b,
            {
                if a != b {
                    proof {
                        lemma_key_index(graph@.edges, |ed: EdgeV| ed.id, pair_id(
                            ep,
                            a as int,
                            b as int,
                        ));
                        if has_edge_id(graph@.edges, pair_id(ep, a as int, b as int)) {
                            let kx = edge_index_of(graph@.edges, pair_id(ep, a as int, b as int));
                            lemma_pair_id_inj(ep, pairs[kx].0, pairs[kx].1, a as int, b as int);
                            assert(false);
                        }
                    }
                    let e = Edge::new(
                        make_pair_id(&epre, a, b),
                        make_simple_id(&prefix, a),
                        make_simple_id(&prefix, b),
                    );
                    proof {
                        lemma_put_edge_keeps(graph@.edges, e@);
                    }
                    graph.add_edge(e);
                    proof {
                        pairs = pairs.push((a as int, b as int));
                    }
                }
                b = b + 1;
            }
            proof {
                assert((a + 1) * ((n as int) - 1) == a * ((n as int) - 1) + ((n as int) - 1))
                    by (nonlinear_arith);
            }
            a = a + 1;
        }
    }
    Ok(graph)
}

/// The id a grid edge descriptor denotes: family 0 holds the in-row
/// horizontal edges, family 1 the horizontal wrap-around edges, family 2 the
/// in-column vertical edges, family 3 the vertical wrap-around edges.
pub open spec fn grid_edge_id(f: int, a: int, b: int) -> Seq<char> {
    if f == 0 {
        pair_id("eh"@, a, b)
    } else if f == 1 {
        simple_id("ehp_"@, a)
    } else if f == 2 {
        pair_id("ev"@, a, b)
    } else {
        simple_id("evp_"@, a)
    }
}

/// The node record the grid generator creates at row `i`, column `j`.
pub open spec fn grid_node(pfx: Seq<char>, i: int, j: int) -> NodeV {
    NodeV {
        id: pair_id(pfx, i, j),
        node_type: Seq::<char>::empty(),
        metadata: Seq::<AttrV>::empty(),
        x_bits: 0,
        y_bits: 0,
    }
}

/// The edge record the grid generator creates: its id comes from the family
/// and indices, and it runs from the node at `(si, sj)` to the one at
/// `(ti, tj)`.
pub open spec fn grid_edge(
    f: int,
    a: int,
    b: int,
    pfx: Seq<char>,
    si: int,
    sj: int,
    ti: int,
    tj: int,
) -> EdgeV {
    EdgeV {
        id: grid_edge_id(f, a, b),
        source: pair_id(pfx, si, sj),
        target: pair_id(pfx, ti, tj),
        edge_type: Seq::<char>::empty(),
        metadata: Seq::<AttrV>::empty(),
    }
}

/// The contents of the grid edge id prefixes.
proof fn lemma_grid_prefixes()
    ensures
        "eh"@.len() == 2 && "eh"@[0] == 'e' && "eh"@[1] == 'h',
        "ev"@.len() == 2 && "ev"@[0] == 'e' && "ev"@[1] == 'v',
        "ehp_"@.len() == 4 && "ehp_"@[0] == 'e' && "ehp_"@[1] == 'h' && "ehp_"@[2] == 'p',
        "evp_"@.len() == 4 && "evp_"@[0] == 'e' && "evp_"@[1] == 'v' && "evp_"@[2] == 'p',
{
    reveal_strlit("eh");
    reveal_strlit("ev");
    reveal_strlit("ehp_");
    reveal_strlit("evp_");
}

/// Equal grid edge ids come from the same family and the same indices.
proof fn lemma_grid_edge_id_inj(f1: int, a1: int, b1: int, f2: int, a2: int, b2: int)
    requires
        0 <= f1 <= 3,
        0 <= f2 <= 3,
        a1 >= 0,
        b1 >= 0,
        a2 >= 0,
        b2 >= 0,
        grid_edge_id(f1, a1, b1) == grid_edge_id(f2, a2, b2),
    ensures
        f1 == f2,
        a1 == a2,
        (f1 == 0 || f1 == 2) ==> b1 == b2,
{
    lemma_grid_prefixes();
    assert('h' != 'v');
    assert('p' as int == 112);
    if f1 == 0 {
        lemma_pair_id_chars("eh"@, a1, b1);
    } else if f1 == 1 {
        lemma_simple_id_chars("ehp_"@, a1);
    } else if f1 == 2 {
        lemma_pair_id_chars("ev"@, a1, b1);
    } else {
        lemma_simple_id_chars("evp_"@, a1);
    }
    if f2 == 0 {
        lemma_pair_id_chars("eh"@, a2, b2);
    } else if f2 == 1 {
        lemma_simple_id_chars("ehp_"@, a2);
    } else if f2 == 2 {
        lemma_pair_id_chars("ev"@, a2, b2);
    } else {
        lemma_simple_id_chars("evp_"@, a2);
    }
    let id = grid_edge_id(f1, a1, b1);
    if f1 != f2 {
        if (f1 == 0 || f1 == 1) != (f2 == 0 || f2 == 1) {
            assert(id[1] == 'h' || id[1] == 'v');
            assert(false);
        } else if f1 == 0 || f1 == 2 {
            assert(48 <= id[2] as int <= 57);
            assert(id[2] == 'p');
            assert(false);
        } else {
            assert(48 <= id[2] as int <= 57);
            assert(id[2] == 'p');
            assert(false);
        }
    } else {
        if f1 == 0 {
            lemma_pair_id_inj("eh"@, a1, b1, a2, b2);
        } else if f1 == 1 {
            lemma_simple_id_inj("ehp_"@, a1, a2);
        } else if f1 == 2 {
            lemma_pair_id_inj("ev"@, a1, b1, a2, b2);
        } else {
            lemma_simple_id_inj("evp_"@, a1, a2);
        }
    }
}

/// The grid graph on `rows x cols` nodes: horizontal and vertical neighbor
/// edges, and with `periodic` one wrap-around edge per row and per column.
#[verifier::rlimit(80)]
pub fn generate_grid(params: &Vec<Attr>) -> (r: Result<Graph, String>)
    ensures
        ({
            let ps = attrs_view(params@);
            match r {
                Ok(g) => {
                    &&& param_count_ok(ps, "rows"@)
                    &&& param_count_ok(ps, "cols"@)
                    &&& g.wf()
                    &&& g@.nodes.len() == param_count(ps, "rows"@) * param_count(ps, "cols"@)
                    &&& g@.edges.len() == ({
                        let rws = param_count(ps, "rows"@);
                        let cls = param_count(ps, "cols"@);
                        if rws == 0 || cls == 0 {
                            0
                        } else {
                            (rws - 1) * cls + rws * (cls - 1) + (if param_bool(
                                ps,
                                "periodic"@,
                                false,
                            ) {
                                rws + cls
                            } else {
                                0
                            })
                        }
                    })
                    &&& ({
                        let rws = param_count(ps, "rows"@);
                        let cls = param_count(ps, "cols"@);
                        let pfx = param_string(ps, "prefix"@, "n"@);
                        let periodic = param_bool(ps, "periodic"@, false);
                        &&& (forall|x: int, y: int|
                            0 <= x < rws && 0 <= y < cls ==> has_node_id(
                                g@.nodes,
                                #[trigger] pair_id(pfx, x, y),
                            ) && node_at(g@.nodes, pair_id(pfx, x, y)) == grid_node(pfx, x, y))
                        &&& (forall|x: int, y: int|
                            0 <= x < rws && 0 <= y < cls - 1 ==> has_edge_id(
                                g@.edges,
                                #[trigger] grid_edge_id(0, x, y),
                            ) && edge_at(g@.edges, grid_edge_id(0, x, y)) == grid_edge(
                                0,
                                x,
                                y,
                                pfx,
                                x,
                                y,
                                x,
                                y + 1,
                            ))
                        &&& (forall|x: int, y: int|
                            0 <= x < rws - 1 && 0 <= y < cls ==> has_edge_id(
                                g@.edges,
                                #[trigger] grid_edge_id(2, x, y),
                            ) && edge_at(g@.edges, grid_edge_id(2, x, y)) == grid_edge(
                                2,
                                x,
                                y,
                                pfx,
                                x,
                                y,
                                x + 1,
                                y,
                            ))
                        &&& (periodic && cls >= 1 ==> forall|x: int|
                            0 <= x < rws ==> has_edge_id(
                                g@.edges,
                                #[trigger] grid_edge_id(1, x, 0),
                            ) && edge_at(g@.edges, grid_edge_id(1, x, 0)) == grid_edge(
                                1,
                                x,
                                0,
                                pfx,
                                x,
                                cls - 1,
                                x,
                                0,
                            ))
                        &&& (periodic && rws >= 1 ==> forall|y: int|
                            0 <= y < cls ==> has_edge_id(
                                g@.edges,
                                #[trigger] grid_edge_id(3, y, 0),
                            ) && edge_at(g@.edges, grid_edge_id(3, y, 0)) == grid_edge(
                                3,
                                y,
                                0,
                                pfx,
                                rws - 1,
                                y,
                                0,
                                y,
                            ))
                    })
                },
                Err(_) => !(param_count_ok(ps, "rows"@) && param_count_ok(ps, "cols"@)),
            }
        }),
{
    let ghost ps = attrs_view(params@);
    let rows = match get_param_int(params, &"rows".to_owned()) {
        Ok(v) => v,
        Err(e) => {
            return Err(e);
        },
    };
    let cols = match get_param_int(params, &"cols".to_owned()) {
        Ok(v) => v,
        Err(e) => {
            return Err(e);
        },
    };
    let prefix = get_param_string(params, &"prefix".to_owned(), "n");
    let periodic = get_param_bool(params, &"periodic".to_owned(), false);
    let ghost pfx = prefix@;
    let mut graph = Graph::new();
    if rows == 0 || cols == 0 {
        proof {
            assert((rows as int) * (cols as int) == 0) by (nonlinear_arith)
                requires
                    rows == 0 || cols == 0,
            ;
        }
        return Ok(graph);
    }
    let ghost per: int = if periodic {
        1
    } else {
        0
    };
    let ghost mut npairs: Seq<(int, int)> = Seq::<(int, int)>::empty();
    let mut i: usize = 0;
    while i < rows
        invariant
            0 <= i <= rows,
            cols >= 1,
            graph.wf(),
            graph@.edges.len() == 0,
            graph@.nodes.len() == i * (cols as int),
            npairs.len() == graph@.nodes.len(),
            forall|k: int|
                0 <= k < npairs.len() ==> (#[trigger] graph@.nodes[k]).id == pair_id(
                    pfx,
                    npairs[k].0,
                    npairs[k].1,
                ),
            forall|k: int|
                0 <= k < npairs.len() ==> 0 <= (#[trigger] npairs[k]).0 < rows && 0 <= npairs[k].1
                    < cols && npairs[k].0 < i,
            forall|x: int, y: int|
                0 <= x < rows && 0 <= y < cols && x < i ==> has_node_id(
                    graph@.nodes,
                    #[trigger] pair_id(pfx, x, y),
                ) && node_at(graph@.nodes, pair_id(pfx, x, y)) == grid_node(pfx, x, y),
        decreases rows - i,
    {
        let mut j: usize = 0;
        while j < cols
            invariant
                0 <= j <= cols,
                i < rows,
                graph.wf(),
                graph@.edges.len() == 0,
                graph@.nodes.len() == i * (cols as int) + j,
                npairs.len() == graph@.nodes.len(),
                forall|k: int|
                    0 <= k < npairs.len() ==> (#[trigger] graph@.nodes[k]).id == pair_id(
                        pfx,
                        npairs[k].0,
                        npairs[k].1,
                    ),
                forall|k: int|
                    0 <= k < npairs.len() ==> 0 <= (#[trigger] npairs[k]).0 < rows && 0
                        <= npairs[k].1 < cols && (npairs[k].0 < i || (npairs[k].0 == i
                        && npairs[k].1 < j)),
                forall|x: int, y: int|
                    0 <= x < rows && 0 <= y < cols && (x < i || (x == i && y < j)) ==> has_node_id(
                        graph@.nodes,
                        #[trigger] pair_id(pfx, x, y),
                    ) && node_at(graph@.nodes, pair_id(pfx, x, y)) == grid_node(pfx, x, y),
            decreases cols - j,
        {
            proof {
                lemma_key_index(graph@.nodes, |nd: NodeV| nd.id, pair_id(pfx, i as int, j as int));
                if has_node_id(graph@.nodes, pair_id(pfx, i as int, j as int)) {
                    let kx = node_index_of(graph@.nodes, pair_id(pfx, i as int, j as int));
                    lemma_pair_id_inj(pfx, npairs[kx].0, npairs[kx].1, i as int, j as int);
                    assert(false);
                }
            }
            let node = Node::new(make_pair_id(&prefix, i, j));
            proof {
                lemma_put_node_keeps(graph@.nodes, node@);
            }
            graph.add_node(node);
            proof {
                npairs = npairs.push((i as int, j as int));
            }
            j = j + 1;
        }
        proof {
            assert((i + 1) * (cols as int) == i * (cols as int) + (cols as int))
                by (nonlinear_arith);
        }
        i = i + 1;
    }
    let ghost nn: int = (rows as int) * (cols as int);
    let ghost mut descs: Seq<(int, int, int)> = Seq::<(int, int, int)>::empty();
    let ehpre = "eh".to_owned();
    let ehppre = "ehp_".to_owned();
    let evpre = "ev".to_owned();
    let evppre = "evp_".to_owned();
    let mut i2: usize = 0;
    while i2 < rows
        invariant
            0 <= i2 <= rows,
            rows >= 1,
            cols >= 1,
            graph.wf(),
            graph@.nodes.len() == nn,
            ehpre@ == "eh"@ && ehppre@ == "ehp_"@ && evpre@ == "ev"@ && evppre@ == "evp_"@,
            prefix@ == pfx,
            per == if periodic {
                1int
            } else {
                0int
            },
            graph@.edges.len() == i2 * ((cols as int) - 1 + per),
            descs.len() == graph@.edges.len(),
            forall|k: int|
                0 <= k < descs.len() ==> (#[trigger] graph@.edges[k]).id == grid_edge_id(
                    descs[k].0,
                    descs[k].1,
                    descs[k].2,
                ),
            forall|k: int|
                0 <= k < descs.len() ==> ({
                    let d = #[trigger] descs[k];
                    (d.0 == 0 && 0 <= d.1 < i2 && 0 <= d.2 < cols - 1) || (d.0 == 1 && 0 <= d.1
                        < i2 && d.2 == 0 && per == 1)
                }),
            forall|x: int, y: int|
                0 <= x < rows && 0 <= y < cols ==> has_node_id(
                    graph@.nodes,
                    #[trigger] pair_id(pfx, x, y),
                ) && node_at(graph@.nodes, pair_id(pfx, x, y)) == grid_node(pfx, x, y),
            forall|x: int, y: int|
                0 <= x < i2 && 0 <= y < cols - 1 ==> has_edge_id(
                    graph@.edges,
                    #[trigger] grid_edge_id(0, x, y),
                ) && edge_at(graph@.edges, grid_edge_id(0, x, y)) == grid_edge(
                    0,
                    x,
                    y,
                    pfx,
                    x,
                    y,
                    x,
                    y + 1,
                ),
            periodic ==> forall|x: int|
                0 <= x < i2 ==> has_edge_id(graph@.edges, #[trigger] grid_edge_id(1, x, 0))
                    && edge_at(graph@.edges, grid_edge_id(1, x, 0)) == grid_edge(
                    1,
                    x,
                    0,
                    pfx,
                    x,
                    (cols as int) - 1,
                    x,
                    0,
                ),
        decreases rows - i2,
    {
        let mut j2: usize = 0;
        while j2 + 1 < cols
            invariant
                0 <= j2,
                cols >= 1 ==> j2 <= cols - 1,
                i2 < rows,
                rows >= 1,
                cols >= 1,
                graph.wf(),
                graph@.nodes.len() == nn,
                ehpre@ == "eh"@ && ehppre@ == "ehp_"@ && evpre@ == "ev"@ && evppre@ == "evp_"@,
                prefix@ == pfx,
                per == if periodic {
                    1int
                } else {
                    0int
                },
                graph@.edges.len() == i2 * ((cols as int) - 1 + per) + j2,
                descs.len() == graph@.edges.len(),
                forall|k: int|
                    0 <= k < descs.len() ==> (#[trigger] graph@.edges[k]).id == grid_edge_id(
                        descs[k].0,
                        descs[k].1,
                        descs[k].2,
                    ),
                forall|k: int|
                    0 <= k < descs.len() ==> ({
                        let d = #[trigger] descs[k];
                        (d.0 == 0 && 0 <= d.1 < rows && 0 <= d.2 < cols - 1 && (d.1 < i2 || (d.1
                            == i2 && d.2 < j2))) || (d.0 == 1 && 0 <= d.1 < i2 && d.2 == 0 && per
                            == 1)
                    }),
                forall|x: int, y: int|
                0 <= x < rows && 0 <= y < cols ==> has_node_id(
                    graph@.nodes,
                    #[trigger] pair_id(pfx, x, y),
                ) && node_at(graph@.nodes, pair_id(pfx, x, y)) == grid_node(pfx, x, y),
                forall|x: int, y: int|
                    0 <= x < rows && 0 <= y < cols - 1 && (x < i2 || (x == i2 && y < j2)) ==>
                        has_edge_id(graph@.edges, #[trigger] grid_edge_id(0, x, y)) && edge_at(
                        graph@.edges,
                        grid_edge_id(0, x, y),
                    ) == grid_edge(0, x, y, pfx, x, y, x, y + 1),
                periodic ==> forall|x: int|
                    0 <= x < i2 ==> has_edge_id(graph@.edges, #[trigger] grid_edge_id(1, x, 0))
                        && edge_at(graph@.edges, grid_edge_id(1, x, 0)) == grid_edge(
                        1,
                        x,
                        0,
                        pfx,
                        x,
                        (cols as int) - 1,
                        x,
                        0,
                    ),
            decreases cols - j2,
        {
            proof {
                lemma_key_index(graph@.edges, |ed: EdgeV| ed.id, grid_edge_id(
                    0,
                    i2 as int,
                    j2 as int,
                ));
                if has_edge_id(graph@.edges, grid_edge_id(0, i2 as int, j2 as int)) {
                    let kx = edge_index_of(graph@.edges, grid_edge_id(0, i2 as int, j2 as int));
                    lemma_grid_edge_id_inj(
                        descs[kx].0,
                        descs[kx].1,
                        descs[kx].2,
                        0,
                        i2 as int,
                        j2 as int,
                    );
                    assert(false);
                }
            }
            let e = Edge::new(
                make_pair_id(&ehpre, i2, j2),
                make_pair_id(&prefix, i2, j2),
                make_pair_id(&prefix, i2, j2 + 1),
            );
            proof {
                lemma_put_edge_keeps(graph@.edges, e@);
            }
            graph.add_edge(e);
            proof {
                descs = descs.push((0int, i2 as int, j2 as int));
            }
            j2 = j2 + 1;
        }
        if periodic {
            proof {
                lemma_key_index(graph@.edges, |ed: EdgeV| ed.id, grid_edge_id(1, i2 as int, 0));
                if has_edge_id(graph@.edges, grid_edge_id(1, i2 as int, 0)) {
                    let kx = edge_index_of(graph@.edges, grid_edge_id(1, i2 as int, 0));
                    lemma_grid_edge_id_inj(
                        descs[kx].0,
                        descs[kx].1,
                        descs[kx].2,
                        1,
                        i2 as int,
                        0,
                    );
                    assert(false);
                }
            }
            let e = Edge::new(
                make_simple_id(&ehppre, i2),
                make_pair_id(&prefix, i2, cols - 1),
                make_pair_id(&prefix, i2, 0),
            );
            proof {
                lemma_put_edge_keeps(graph@.edges, e@);
            }
            graph.add_edge(e);
            proof {
                descs = descs.push((1int, i2 as int, 0int));
            }
        }
        proof {
            assert((i2 + 1) * ((cols as int) - 1 + per) == i2 * ((cols as int) - 1 + per) + ((
            cols as int) - 1 + per)) by (nonlinear_arith);
        }
        i2 = i2 + 1;
    }
    let ghost hcount: int = (rows as int) * ((cols as int) - 1 + per);
    let mut j3: usize = 0;
    while j3 < cols
        invariant
            0 <= j3 <= cols,
            rows >= 1,
            cols >= 1,
            graph.wf(),
            graph@.nodes.len() == nn,
            ehpre@ == "eh"@ && ehppre@ == "ehp_"@ && evpre@ == "ev"@ && evppre@ == "evp_"@,
            prefix@ == pfx,
            per == if periodic {
                1int
            } else {
                0int
            },
            graph@.edges.len() == hcount + j3 * ((rows as int) - 1 + per),
            descs.len() == graph@.edges.len(),
            forall|k: int|
                0 <= k < descs.len() ==> (#[trigger] graph@.edges[k]).id == grid_edge_id(
                    descs[k].0,
                    descs[k].1,
                    descs[k].2,
                ),
            forall|k: int|
                0 <= k < descs.len() ==> ({
                    let d = #[trigger] descs[k];
                    (d.0 == 0 && 0 <= d.1 < rows && 0 <= d.2 < cols - 1) || (d.0 == 1 && 0 <= d.1
                        < rows && d.2 == 0 && per == 1) || (d.0 == 2 && 0 <= d.1 < rows - 1 && 0
                        <= d.2 < j3) || (d.0 == 3 && 0 <= d.1 < j3 && d.2 == 0 && per == 1)
                }),
            forall|x: int, y: int|
                0 <= x < rows && 0 <= y < cols ==> has_node_id(
                    graph@.nodes,
                    #[trigger] pair_id(pfx, x, y),
                ) && node_at(graph@.nodes, pair_id(pfx, x, y)) == grid_node(pfx, x, y),            forall|x: int, y: int|
                0 <= x < rows && 0 <= y < cols - 1 ==> has_edge_id(
                    graph@.edges,
                    #[trigger] grid_edge_id(0, x, y),
                ) && edge_at(graph@.edges, grid_edge_id(0, x, y)) == grid_edge(
                    0,
                    x,
                    y,
                    pfx,
                    x,
                    y,
                    x,
                    y + 1,
                ),
            periodic ==> forall|x: int|
                0 <= x < rows ==> has_edge_id(graph@.edges, #[trigger] grid_edge_id(1, x, 0))
                    && edge_at(graph@.edges, grid_edge_id(1, x, 0)) == grid_edge(
                    1,
                    x,
                    0,
                    pfx,
                    x,
                    (cols as int) - 1,
                    x,
                    0,
                ),
            forall|x: int, y: int|
                0 <= x < rows - 1 && 0 <= y < j3 ==> has_edge_id(
                    graph@.edges,
                    #[trigger] grid_edge_id(2, x, y),
                ) && edge_at(graph@.edges, grid_edge_id(2, x, y)) == grid_edge(
                    2,
                    x,
                    y,
                    pfx,
                    x,
                    y,
                    x + 1,
                    y,
                ),
            periodic ==> forall|y: int|
                0 <= y < j3 ==> has_edge_id(graph@.edges, #[trigger] grid_edge_id(3, y, 0))
                    && edge_at(graph@.edges, grid_edge_id(3, y, 0)) == grid_edge(
                    3,
                    y,
                    0,
                    pfx,
                    (rows as int) - 1,
                    y,
                    0,
                    y,
                ),
        decreases cols - j3,
    {
        let mut i3: usize = 0;
        while i3 + 1 < rows
            invariant
                0 <= i3,
                rows >= 1 ==> i3 <= rows - 1,
                j3 < cols,
                rows >= 1,
                cols >= 1,
                graph.wf(),
                graph@.nodes.len() == nn,
                ehpre@ == "eh"@ && ehppre@ == "ehp_"@ && evpre@ == "ev"@ && evppre@ == "evp_"@,
                prefix@ == pfx,
                per == if periodic {
                    1int
                } else {
                    0int
                },
                graph@.edges.len() == hcount + j3 * ((rows as int) - 1 + per) + i3,
                descs.len() == graph@.edges.len(),
                forall|k: int|
                    0 <= k < descs.len() ==> (#[trigger] graph@.edges[k]).id == grid_edge_id(
                        descs[k].0,
                        descs[k].1,
                        descs[k].2,
                    ),
                forall|k: int|
                    0 <= k < descs.len() ==> ({
                        let d = #[trigger] descs[k];
                        (d.0 == 0 && 0 <= d.1 < rows && 0 <= d.2 < cols - 1) || (d.0 == 1 && 0
                            <= d.1 < rows && d.2 == 0 && per == 1) || (d.0 == 2 && 0 <= d.1 < rows
                            - 1 && 0 <= d.2 < cols && (d.2 < j3 || (d.2 == j3 && d.1 < i3))) || (
                        d.0 == 3 && 0 <= d.1 < j3 && d.2 == 0 && per == 1)
                    }),
                forall|x: int, y: int|
                0 <= x < rows && 0 <= y < cols ==> has_node_id(
                    graph@.nodes,
                    #[trigger] pair_id(pfx, x, y),
                ) && node_at(graph@.nodes, pair_id(pfx, x, y)) == grid_node(pfx, x, y),            forall|x: int, y: int|
                0 <= x < rows && 0 <= y < cols - 1 ==> has_edge_id(
                    graph@.edges,
                    #[trigger] grid_edge_id(0, x, y),
                ) && edge_at(graph@.edges, grid_edge_id(0, x, y)) == grid_edge(
                    0,
                    x,
                    y,
                    pfx,
                    x,
                    y,
                    x,
                    y + 1,
                ),
            periodic ==> forall|x: int|
                0 <= x < rows ==> has_edge_id(graph@.edges, #[trigger] grid_edge_id(1, x, 0))
                    && edge_at(graph@.edges, grid_edge_id(1, x, 0)) == grid_edge(
                    1,
                    x,
                    0,
                    pfx,
                    x,
                    (cols as int) - 1,
                    x,
                    0,
                ),
                forall|x: int, y: int|
                    0 <= x < rows - 1 && 0 <= y < cols && (y < j3 || (y == j3 && x < i3)) ==>
                        has_edge_id(graph@.edges, #[trigger] grid_edge_id(2, x, y)) && edge_at(
                        graph@.edges,
                        grid_edge_id(2, x, y),
                    ) == grid_edge(2, x, y, pfx, x, y, x + 1, y),
                periodic ==> forall|y: int|
                    0 <= y < j3 ==> has_edge_id(graph@.edges, #[trigger] grid_edge_id(3, y, 0))
                        && edge_at(graph@.edges, grid_edge_id(3, y, 0)) == grid_edge(
                        3,
                        y,
                        0,
                        pfx,
                        (rows as int) - 1,
                        y,
                        0,
                        y,
                    ),
            decreases rows - i3,
        {
            proof {
                lemma_key_index(graph@.edges, |ed: EdgeV| ed.id, grid_edge_id(
                    2,
                    i3 as int,
                    j3 as int,
                ));
                if has_edge_id(graph@.edges, grid_edge_id(2, i3 as int, j3 as int)) {
                    let kx = edge_index_of(graph@.edges, grid_edge_id(2, i3 as int, j3 as int));
                    lemma_grid_edge_id_inj(
                        descs[kx].0,
                        descs[kx].1,
                        descs[kx].2,
                        2,
                        i3 as int,
                        j3 as int,
                    );
                    assert(false);
                }
            }
            let e = Edge::new(
                make_pair_id(&evpre, i3, j3),
                make_pair_id(&prefix, i3, j3),
                make_pair_id(&prefix, i3 + 1, j3),
            );
            proof {
                lemma_put_edge_keeps(graph@.edges, e@);
            }
            graph.add_edge(e);
            proof {
                descs = descs.push((2int, i3 as int, j3 as int));
            }
            i3 = i3 + 1;
        }
        if periodic {
            proof {
                lemma_key_index(graph@.edges, |ed: EdgeV| ed.id, grid_edge_id(3, j3 as int, 0));
                if has_edge_id(graph@.edges, grid_edge_id(3, j3 as int, 0)) {
                    let kx = edge_index_of(graph@.edges, grid_edge_id(3, j3 as int, 0));
                    lemma_grid_edge_id_inj(
                        descs[kx].0,
                        descs[kx].1,
                        descs[kx].2,
                        3,
                        j3 as int,
                        0,
                    );
                    assert(false);
                }
            }
            let e = Edge::new(
                make_simple_id(&evppre, j3),
                make_pair_id(&prefix, rows - 1, j3),
                make_pair_id(&prefix, 0, j3),
            );
            proof {
                lemma_put_edge_keeps(graph@.edges, e@);
            }
            graph.add_edge(e);
            proof {
                descs = descs.push((3int, j3 as int, 0int));
            }
        }
        proof {
            assert((j3 + 1) * ((rows as int) - 1 + per) == j3 * ((rows as int) - 1 + per) + ((
            rows as int) - 1 + per)) by (nonlinear_arith);
        }
        j3 = j3 + 1;
    }
    proof {
        let rr = rows as int;
        let cc = cols as int;
        assert(rr * (cc - 1 + per) + cc * (rr - 1 + per) == (rr - 1) * cc + rr * (cc - 1) + per
            * (rr + cc)) by (nonlinear_arith);
        if periodic {
            assert(per * (rr + cc) == rr + cc);
        } else {
            assert(per * (rr + cc) == 0);
        }
    }
    Ok(graph)
}

/// The path graph: `nodes=N` nodes in a line, each connected to the next.
pub fn generate_path(params: &Vec<Attr>) -> (r: Result<Graph, String>)
    ensures
        ({
            let ps = attrs_view(params@);
            match r {
                Ok(g) => {
                    &&& param_count_ok(ps, "nodes"@)
                    &&& g.wf()
                    &&& g@.nodes.len() == param_count(ps, "nodes"@)
                    &&& g@.edges.len() == ({
                        let n = param_count(ps, "nodes"@);
                        if n == 0 {
                            0
                        } else {
                            n - 1
                        }
                    })
                    &&& ({
                        let n = param_count(ps, "nodes"@);
                        let pfx = param_string(ps, "prefix"@, "n"@);
                        &&& (forall|t: int| 0 <= t < n ==> g@.nodes[t] == gen_node(pfx, t))
                        &&& (forall|x: int|
                            0 <= x < n - 1 ==> has_edge_id(
                                g@.edges,
                                #[trigger] pair_id("e"@, x, x + 1),
                            ) && edge_at(g@.edges, pair_id("e"@, x, x + 1)) == gen_edge(
                                "e"@,
                                pfx,
                                x,
                                x + 1,
                                x,
                                x + 1,
                            ))
                    })
                },
                Err(_) => !param_count_ok(ps, "nodes"@),
            }
        }),
{
    let ghost ps = attrs_view(params@);
    let n = match get_param_int(params, &"nodes".to_owned()) {
        Ok(v) => v,
        Err(e) => {
            return Err(e);
        },
    };
    let prefix = get_param_string(params, &"prefix".to_owned(), "n");
    let _directed = get_param_bool(params, &"directed".to_owned(), false);
    let ghost pfx = prefix@;
    let mut graph = Graph::new();
    let mut i: usize = 0;
    while i < n
        invariant
            0 <= i <= n,
            graph.wf(),
            graph@.edges.len() == 0,
            graph@.nodes.len() == i,
            forall|t: int| 0 <= t < i ==> #[trigger] graph@.nodes[t] == gen_node(pfx, t),
        decreases n - i,
    {
        proof {
            lemma_fresh_simple_node(graph@, pfx, i as int);
        }
        graph.add_node(Node::new(make_simple_id(&prefix, i)));
        i = i + 1;
    }
    let epre = "e".to_owned();
    let ghost ep = epre@;
    let mut a: usize = 0;
    while a + 1 < n
        invariant
            0 <= a,
            n == 0 ==> a == 0,
            n >= 1 ==> a <= n - 1,
            graph.wf(),
            graph@.nodes.len() == n,
            forall|t: int| 0 <= t < n ==> #[trigger] graph@.nodes[t] == gen_node(pfx, t),
            graph@.edges.len() == a,
            forall|k: int|
                0 <= k < graph@.edges.len() ==> exists|x: int|
                    0 <= x < a && (#[trigger] graph@.edges[k]).id == #[trigger] pair_id(
                        ep,
                        x,
                        x + 1,
                    ),
            forall|x: int|
                0 <= x < a ==> has_edge_id(graph@.edges, #[trigger] pair_id(ep, x, x + 1))
                    && edge_at(graph@.edges, pair_id(ep, x, x + 1)) == gen_edge(
                    ep,
                    pfx,
                    x,
                    x + 1,
                    x,
                    x + 1,
                ),
        decreases n - a,
    {
        proof {
            lemma_key_index(graph@.edges, |ed: EdgeV| ed.id, pair_id(ep, a as int, a + 1 as int));
            if has_edge_id(graph@.edges, pair_id(ep, a as int, a + 1 as int)) {
                let kx = edge_index_of(graph@.edges, pair_id(ep, a as int, a + 1 as int));
                let x = choose|x: int|
                    0 <= x < a && graph@.edges[kx].id == #[trigger] pair_id(ep, x, x + 1);
                lemma_pair_id_inj(ep, x, x + 1, a as int, a + 1 as int);
                assert(false);
            }
        }
        let e = Edge::new(
            make_pair_id(&epre, a, a + 1),
            make_simple_id(&prefix, a),
            make_simple_id(&prefix, a + 1),
        );
        proof {
            lemma_put_edge_keeps(graph@.edges, e@);
        }
        graph.add_edge(e);
        a = a + 1;
    }
    Ok(graph)
}

/// The cycle graph: `nodes=N` nodes in a ring, each connected to the next,
/// the last wrapping around to the first.
pub fn generate_cycle(params: &Vec<Attr>) -> (r: Result<Graph, String>)
    ensures
        ({
            let ps = attrs_view(params@);
            match r {
                Ok(g) => {
                    &&& param_count_ok(ps, "nodes"@)
                    &&& g.wf()
                    &&& g@.nodes.len() == param_count(ps, "nodes"@)
                    &&& g@.edges.len() == param_count(ps, "nodes"@)
                    &&& ({
                        let n = param_count(ps, "nodes"@);
                        let pfx = param_string(ps, "prefix"@, "n"@);
                        &&& (forall|t: int| 0 <= t < n ==> g@.nodes[t] == gen_node(pfx, t))
                        &&& (forall|x: int, y: int|
                            0 <= x < n && y == (if x + 1 < n {
                                x + 1
                            } else {
                                0
                            }) ==> has_edge_id(g@.edges, #[trigger] pair_id("e"@, x, y))
                                && edge_at(g@.edges, pair_id("e"@, x, y)) == gen_edge(
                                "e"@,
                                pfx,
                                x,
                                y,
                                x,
                                y,
                            ))
                    })
                },
                Err(_) => !param_count_ok(ps, "nodes"@),
            }
        }),
{
    let ghost ps = attrs_view(params@);
    let n = match get_param_int(params, &"nodes".to_owned()) {
        Ok(v) => v,
        Err(e) => {
            return Err(e);
        },
    };
    let prefix = get_param_string(params, &"prefix".to_owned(), "n");
    let _directed = get_param_bool(params, &"directed".to_owned(), false);
    let ghost pfx = prefix@;
    let mut graph = Graph::new();
    let mut i: usize = 0;
    while i < n
        invariant
            0 <= i <= n,
            graph.wf(),
            graph@.edges.len() == 0,
            graph@.nodes.len() == i,
            forall|t: int| 0 <= t < i ==> #[trigger] graph@.nodes[t] == gen_node(pfx, t),
        decreases n - i,
    {
        proof {
            lemma_fresh_simple_node(graph@, pfx, i as int);
        }
        graph.add_node(Node::new(make_simple_id(&prefix, i)));
        i = i + 1;
    }
    let epre = "e".to_owned();
    let ghost ep = epre@;
    let mut a: usize = 0;
    while a < n
        invariant
            0 <= a <= n,
            graph.wf(),
            graph@.nodes.len() == n,
            forall|t: int| 0 <= t < n ==> #[trigger] graph@.nodes[t] == gen_node(pfx, t),
            graph@.edges.len() == a,
            forall|k: int|
                0 <= k < graph@.edges.len() ==> exists|x: int, y: int|
                    0 <= x < a && 0 <= y && (#[trigger] graph@.edges[k]).id == pair_id(ep, x, y),
            forall|x: int, y: int|
                0 <= x < a && y == (if x + 1 < n {
                    x + 1
                } else {
                    0
                }) ==> has_edge_id(graph@.edges, #[trigger] pair_id(ep, x, y)) && edge_at(
                    graph@.edges,
                    pair_id(ep, x, y),
                ) == gen_edge(ep, pfx, x, y, x, y),
        decreases n - a,
    {
        let succ = (a + 1) % n;
        proof {
            if a + 1 < n {
                vstd::arithmetic::div_mod::lemma_small_mod((a + 1) as nat, n as nat);
            } else {
                vstd::arithmetic::div_mod::lemma_mod_self_0(n as int);
            }
        }
        assert(succ as int == if a + 1 < n {
            a as int + 1
        } else {
            0int
        });
        proof {
            lemma_key_index(graph@.edges, |ed: EdgeV| ed.id, pair_id(ep, a as int, succ as int));
            if has_edge_id(graph@.edges, pair_id(ep, a as int, succ as int)) {
                let kx = edge_index_of(graph@.edges, pair_id(ep, a as int, succ as int));
                let (x, y) = choose|x: int, y: int|
                    0 <= x < a && 0 <= y && graph@.edges[kx].id == pair_id(ep, x, y);
                lemma_pair_id_inj(ep, x, y, a as int, succ as int);
                assert(false);
            }
        }
        let e = Edge::new(
            make_pair_id(&epre, a, succ),
            make_simple_id(&prefix, a),
            make_simple_id(&prefix, succ),
        );
        proof {
            lemma_put_edge_keeps(graph@.edges, e@);
        }
        graph.add_edge(e);
        a = a + 1;
    }
    Ok(graph)
}

/// The star graph: a center node and `nodes-1` leaves each connected to it.
pub fn generate_star(params: &Vec<Attr>) -> (r: Result<Graph, String>)
    ensures
        ({
            let ps = attrs_view(params@);
            match r {
                Ok(g) => {
                    &&& param_count_ok(ps, "nodes"@)
                    &&& g.wf()
                    &&& g@.nodes.len() == ({
                        let n = param_count(ps, "nodes"@);
                        if n == 0 {
                            1
                        } else {
                            n
                        }
                    })
                    &&& g@.edges.len() == ({
                        let n = param_count(ps, "nodes"@);
                        if n == 0 {
                            0
                        } else {
                            n - 1
                        }
                    })
                    &&& ({
                        let n = param_count(ps, "nodes"@);
                        let pfx = param_string(ps, "prefix"@, "n"@);
                        let directed = param_bool(ps, "directed"@, false);
                        &&& g@.nodes[0] == gen_node(pfx, 0)
                        &&& (forall|t: int| 1 <= t < n ==> g@.nodes[t] == gen_node(pfx, t))
                        &&& (forall|x: int|
                            1 <= x < n ==> has_edge_id(g@.edges, #[trigger] pair_id("e"@, 0, x))
                                && edge_at(g@.edges, pair_id("e"@, 0, x)) == (if directed {
                                gen_edge("e"@, pfx, 0, x, 0, x)
                            } else {
                                gen_edge("e"@, pfx, 0, x, x, 0)
                            }))
                    })
                },
                Err(_) => !param_count_ok(ps, "nodes"@),
            }
        }),
{
    let ghost ps = attrs_view(params@);
    let n = match get_param_int(params, &"nodes".to_owned()) {
        Ok(v) => v,
        Err(e) => {
            return Err(e);
        },
    };
    let prefix = get_param_string(params, &"prefix".to_owned(), "n");
    let directed = get_param_bool(params, &"directed".to_owned(), false);
    let ghost pfx = prefix@;
    let mut graph = Graph::new();
    let center = make_simple_id(&prefix, 0);
    graph.add_node(Node::new(center.clone()));
    let epre = "e".to_owned();
    let ghost ep = epre@;
    let mut i: usize = 1;
    while i < n
        invariant
            1 <= i,
            n >= 2 ==> i <= n,
            n < 2 ==> i == 1,
            graph.wf(),
            center@ == simple_id(pfx, 0),
            graph@.nodes.len() == i,
            graph@.edges.len() == i - 1,
            forall|t: int| 0 <= t < i ==> #[trigger] graph@.nodes[t] == gen_node(pfx, t),
            forall|k: int|
                0 <= k < graph@.edges.len() ==> exists|x: int|
                    1 <= x < i && (#[trigger] graph@.edges[k]).id == pair_id(ep, 0, x),
            forall|x: int|
                1 <= x < i ==> has_edge_id(graph@.edges, #[trigger] pair_id(ep, 0, x)) && edge_at(
                    graph@.edges,
                    pair_id(ep, 0, x),
                ) == (if directed {
                    gen_edge(ep, pfx, 0, x, 0, x)
                } else {
                    gen_edge(ep, pfx, 0, x, x, 0)
                }),
        decreases n - i,
    {
        proof {
            lemma_fresh_simple_node(graph@, pfx, i as int);
        }
        let node_id = make_simple_id(&prefix, i);
        graph.add_node(Node::new(node_id.clone()));
        proof {
            lemma_key_index(graph@.edges, |ed: EdgeV| ed.id, pair_id(ep, 0, i as int));
            if has_edge_id(graph@.edges, pair_id(ep, 0, i as int)) {
                let kx = edge_index_of(graph@.edges, pair_id(ep, 0, i as int));
                let x = choose|x: int| 1 <= x < i && graph@.edges[kx].id == pair_id(ep, 0, x);
                lemma_pair_id_inj(ep, 0, x, 0, i as int);
                assert(false);
            }
        }
        let edge_id = make_pair_id(&epre, 0, i);
        if directed {
            let e = Edge::new(edge_id, center.clone(), node_id);
            proof {
                lemma_put_edge_keeps(graph@.edges, e@);
            }
            graph.add_edge(e);
        } else {
            let e = Edge::new(edge_id, node_id, center.clone());
            proof {
                lemma_put_edge_keeps(graph@.edges, e@);
            }
            graph.add_edge(e);
        }
        i = i + 1;
    }
    Ok(graph)
}

/// The random generator handle used by the preferential-attachment
/// generator; its state is outside the model.
#[verifier::external_type_specification]
#[verifier::external_body]
pub struct ExThreadRng(rand::rngs::ThreadRng);

/// Relies on rand::thread_rng: a lazily seeded random generator local to the
/// calling thread. Nothing is promised of its state.
#[verifier::external_body]
fn fresh_rng() -> rand::rngs::ThreadRng {
    rand::thread_rng()
}

/// Relies on rand::Rng::gen_range over `0..n`: a uniformly drawn index below
/// `n`. The call panics only on an empty range, which the precondition rules
/// out; no other promise is made of the draw.
#[verifier::external_body]
fn rng_below(rng: &mut rand::rngs::ThreadRng, n: usize) -> (r: usize)
    requires
        n >= 1,
    ensures
        r < n,
{
    rand::Rng::gen_range(rng, 0..n)
}

/// Membership test on a list of indices.
fn index_list_contains(v: &Vec<usize>, x: usize) -> (r: bool)
    ensures
        r == v@.contains(x),
{
    let mut i: usize = 0;
    while i < v.len()
        invariant
            0 <= i <= v.len(),
            forall|j: int| 0 <= j < i ==> v@[j] != x,
        decreases v.len() - i,
    {
        if v[i] == x {
            assert(v@[i as int] == x);
            return true;
        }
        i = i + 1;
    }
    false
}

/// The smallest node index at relative level `l` below a node indexed `p` in
/// a `b`-ary tree (the leftmost descendant chain).
pub open spec fn lvl_lo(p: int, l: int, b: int) -> int
    decreases l,
{
    if l <= 0 {
        p
    } else {
        lvl_lo(p, l - 1, b) * b + 1
    }
}

/// The largest node index at relative level `l` below a node indexed `p`
/// (the rightmost descendant chain).
pub open spec fn lvl_hi(p: int, l: int, b: int) -> int
    decreases l,
{
    if l <= 0 {
        p
    } else {
        lvl_hi(p, l - 1, b) * b + b
    }
}

/// An index in one of the descendant levels 1..h of the node indexed `p`.
pub open spec fn in_subtree(p: int, h: int, b: int, t: int) -> bool {
    exists|l: int| 1 <= l <= h && lvl_lo(p, l, b) <= t <= #[trigger] lvl_hi(p, l, b)
}

/// Level bounds are nonnegative, ordered, and monotone in the root index.
pub proof fn lemma_lvl_basic(p1: int, p2: int, l: int, b: int)
    requires
        0 <= p1 <= p2,
        b >= 1,
        l >= 0,
    ensures
        0 <= lvl_lo(p1, l, b) <= lvl_hi(p1, l, b),
        lvl_lo(p1, l, b) <= lvl_lo(p2, l, b),
        lvl_hi(p1, l, b) <= lvl_hi(p2, l, b),
        p1 < p2 ==> lvl_hi(p1, l, b) < lvl_lo(p2, l, b),
    decreases l,
{
    if l > 0 {
        lemma_lvl_basic(p1, p2, l - 1, b);
        assert(lvl_lo(p1, l - 1, b) * b + 1 >= 0) by (nonlinear_arith)
            requires
                lvl_lo(p1, l - 1, b) >= 0 && b >= 1,
        ;
        assert(lvl_lo(p1, l - 1, b) * b <= lvl_hi(p1, l - 1, b) * b) by (nonlinear_arith)
            requires
                lvl_lo(p1, l - 1, b) <= lvl_hi(p1, l - 1, b) && b >= 1,
        ;
        assert(lvl_lo(p1, l - 1, b) * b <= lvl_lo(p2, l - 1, b) * b) by (nonlinear_arith)
            requires
                lvl_lo(p1, l - 1, b) <= lvl_lo(p2, l - 1, b) && b >= 1,
        ;
        assert(lvl_hi(p1, l - 1, b) * b <= lvl_hi(p2, l - 1, b) * b) by (nonlinear_arith)
            requires
                lvl_hi(p1, l - 1, b) <= lvl_hi(p2, l - 1, b) && b >= 1,
        ;
        if p1 < p2 {
            assert(lvl_hi(p1, l - 1, b) * b + b <= lvl_lo(p2, l - 1, b) * b) by (nonlinear_arith)
                requires
                    lvl_hi(p1, l - 1, b) < lvl_lo(p2, l - 1, b) && b >= 1,
            ;
        }
    }
}

/// A level's top index stays within `b` times its bottom index.
proof fn lemma_lvl_hi_lo(p: int, l: int, b: int)
    requires
        0 <= p,
        b >= 1,
        l >= 0,
    ensures
        lvl_hi(p, l, b) <= lvl_lo(p, l, b) * b,
    decreases l,
{
    lemma_lvl_basic(p, p, l, b);
    if l == 0 {
        assert(p <= p * b) by (nonlinear_arith)
            requires
                p >= 0 && b >= 1,
        ;
    } else {
        lemma_lvl_hi_lo(p, l - 1, b);
        assert(lvl_hi(p, l, b) == lvl_hi(p, l - 1, b) * b + b);
        assert(lvl_lo(p, l, b) == lvl_lo(p, l - 1, b) * b + 1);
        assert(lvl_hi(p, l - 1, b) * b <= (lvl_lo(p, l - 1, b) * b) * b) by (nonlinear_arith)
            requires
                lvl_hi(p, l - 1, b) <= lvl_lo(p, l - 1, b) * b && b >= 1,
        ;
        assert((lvl_lo(p, l - 1, b) * b) * b + b == (lvl_lo(p, l - 1, b) * b + 1) * b)
            by (nonlinear_arith);
    }
}

/// Within one subtree, deeper levels lie strictly beyond shallower ones.
pub proof fn lemma_lvl_order(p: int, l1: int, l2: int, b: int)
    requires
        0 <= p,
        b >= 1,
        0 <= l1 < l2,
    ensures
        lvl_hi(p, l1, b) < lvl_lo(p, l2, b),
    decreases l2 - l1,
{
    lemma_lvl_basic(p, p, l1, b);
    if l2 == l1 + 1 {
        lemma_lvl_hi_lo(p, l1, b);
        assert(lvl_lo(p, l2, b) == lvl_lo(p, l1, b) * b + 1);
    } else {
        lemma_lvl_order(p, l1, l2 - 1, b);
        lemma_lvl_basic(p, p, l2 - 1, b);
        assert(lvl_lo(p, l2 - 1, b) <= lvl_lo(p, l2 - 1, b) * b) by (nonlinear_arith)
            requires
                0 <= lvl_lo(p, l2 - 1, b) && b >= 1,
        ;
        assert(lvl_lo(p, l2, b) == lvl_lo(p, l2 - 1, b) * b + 1);
    }
}

/// A child's level `l` is the parent's level `l + 1`, clipped to the
/// leftmost and rightmost children.
pub proof fn lemma_lvl_shift(p: int, l: int, b: int)
    requires
        0 <= p,
        b >= 1,
        l >= 0,
    ensures
        lvl_lo(p, l + 1, b) == lvl_lo(p * b + 1, l, b),
        lvl_hi(p, l + 1, b) == lvl_hi(p * b + b, l, b),
    decreases l,
{
    if l == 0 {
        assert(lvl_lo(p, 1, b) == lvl_lo(p, 0, b) * b + 1);
        assert(lvl_lo(p, 0, b) == p);
        assert(lvl_lo(p * b + 1, 0, b) == p * b + 1);
        assert(lvl_hi(p, 1, b) == lvl_hi(p, 0, b) * b + b);
        assert(lvl_hi(p, 0, b) == p);
        assert(lvl_hi(p * b + b, 0, b) == p * b + b);
    } else {
        lemma_lvl_shift(p, l - 1, b);
        assert(lvl_lo(p, l + 1, b) == lvl_lo(p, l, b) * b + 1);
        assert(lvl_lo(p * b + 1, l, b) == lvl_lo(p * b + 1, l - 1, b) * b + 1);
        assert(lvl_hi(p, l + 1, b) == lvl_hi(p, l, b) * b + b);
        assert(lvl_hi(p * b + b, l, b) == lvl_hi(p * b + b, l - 1, b) * b + b);
    }
}

/// Every edge of the tree generator, described by one index pair per edge:
/// the edge's id names the pair, and the second component (the child) is the
/// index of a node present in the store.
pub open spec fn linked_by(
    g: GraphV,
    ep: Seq<char>,
    pfx: Seq<char>,
    links: Seq<(int, int)>,
) -> bool {
    &&& links.len() == g.edges.len()
    &&& forall|k: int|
        0 <= k < links.len() ==> (#[trigger] g.edges[k]).id == pair_id(
            ep,
            links[k].0,
            links[k].1,
        )
    &&& forall|k: int|
        0 <= k < links.len() ==> 0 <= (#[trigger] links[k]).0 && 1 <= links[k].1 && has_node_id(
            g.nodes,
            simple_id(pfx, links[k].1),
        )
}

/// After pushing a node whose id is `simple_id(pfx, c)`, the only id of that
/// shape newly present is the one with index `c`.
proof fn lemma_push_presence(s: Seq<NodeV>, n: NodeV, pfx: Seq<char>, c: int)
    requires
        n.id == simple_id(pfx, c),
        c >= 0,
    ensures
        forall|t: int|
            has_node_id(s.push(n), #[trigger] simple_id(pfx, t)) ==> has_node_id(
                s,
                simple_id(pfx, t),
            ) || t == c,
{
    lemma_key_index_push(s, |nd: NodeV| nd.id, n);
    assert forall|t: int|
        has_node_id(s.push(n), #[trigger] simple_id(pfx, t)) && !has_node_id(
            s,
            simple_id(pfx, t),
        ) implies t == c by {
        assert(simple_id(pfx, t) == simple_id(pfx, c));
        if t >= 0 {
            lemma_simple_id_inj(pfx, t, c);
        } else {
            lemma_dec_str_digits(c);
            assert(dec_str(t) == Seq::<char>::empty());
            assert(simple_id(pfx, t).len() == pfx.len());
            assert(simple_id(pfx, c).len() > pfx.len());
        }
    }
}

/// The top index of level `l - 1` below `q` (a helper keeping quantifier
/// triggers free of arithmetic).
pub open spec fn lvl_hi_off(q: int, l: int, b: int) -> int {
    lvl_hi(q, l - 1, b)
}

/// The ids claimed while the children of `p` up to `q = p * b + i` (and
/// their subtrees) have been built: within each descendant level of `p`,
/// only the part up to the subtree of child `i` is in use.
pub open spec fn stage_window(p: int, h: int, b: int, q: int, t: int) -> bool {
    exists|l: int| 1 <= l <= h && #[trigger] lvl_lo(p, l, b) <= t && t <= lvl_hi_off(q, l, b)
}

/// The tree generator: a root and, down to `depth` levels, `branching`
/// children per node, each child connected to its parent. The child of
/// parent `p` at position `i` gets index `p * branching + i + 1`.
pub fn generate_tree(params: &Vec<Attr>) -> (r: Result<Graph, String>)
    ensures
        ({
            let ps = attrs_view(params@);
            match r {
                Ok(g) => {
                    &&& param_count_ok(ps, "branching"@)
                    &&& param_count_ok(ps, "depth"@)
                    &&& g.wf()
                    &&& g@.nodes.len() >= 1
                    &&& g@.edges.len() == g@.nodes.len() - 1
                },
                Err(_) => !(param_count_ok(ps, "branching"@) && param_count_ok(ps, "depth"@)),
            }
        }),
{
    let ghost ps = attrs_view(params@);
    let branching = match get_param_int(params, &"branching".to_owned()) {
        Ok(v) => v,
        Err(e) => {
            return Err(e);
        },
    };
    let depth = match get_param_int(params, &"depth".to_owned()) {
        Ok(v) => v,
        Err(e) => {
            return Err(e);
        },
    };
    let prefix = get_param_string(params, &"prefix".to_owned(), "n");
    let ghost pfx = prefix@;
    let mut graph = Graph::new();
    let root = Node::new(make_simple_id(&prefix, 0));
    graph.add_node(root);
    proof {
        let h = depth as int - 1;
        let b = branching as int;
        assert forall|t: int| in_subtree(0, h, b, t) implies !has_node_id(
            graph@.nodes,
            simple_id(pfx, t),
        ) by {
            let l = choose|l: int| 1 <= l <= h && lvl_lo(0, l, b) <= t <= #[trigger] lvl_hi(0, l, b);
            if b >= 1 {
                lemma_lvl_order(0, 0, l, b);
                assert(t >= 1);
            } else {
                assert(lvl_lo(0, l, b) == lvl_lo(0, l - 1, b) * b + 1);
                assert(lvl_hi(0, l, b) == lvl_hi(0, l - 1, b) * b + b);
                assert(lvl_lo(0, l, b) * 1 == lvl_lo(0, l, b));
                assert(lvl_lo(0, l - 1, b) * 0 == 0) by (nonlinear_arith);
                assert(lvl_hi(0, l - 1, b) * 0 == 0) by (nonlinear_arith);
                assert(t >= 1 && t <= 0);
            }
            lemma_key_index(graph@.nodes, |nd: NodeV| nd.id, simple_id(pfx, t));
            if has_node_id(graph@.nodes, simple_id(pfx, t)) {
                let kx = node_index_of(graph@.nodes, simple_id(pfx, t));
                assert(kx == 0);
                assert(graph@.nodes[0].id == simple_id(pfx, 0));
                lemma_simple_id_inj(pfx, t, 0);
            }
        }
        assert(Seq::<(int, int)>::empty().len() == graph@.edges.len());
    }
    generate_tree_recursive(
        &mut graph,
        &prefix,
        0,
        0,
        depth,
        branching,
        Ghost(Seq::<(int, int)>::empty()),
    );
    Ok(graph)
}

/// One level of the tree recursion: children of `parent_index`, then their
/// subtrees, each child node created together with the edge from its parent.
/// An index that would overflow ends that subtree.
fn generate_tree_recursive(
    graph: &mut Graph,
    prefix: &String,
    parent_index: usize,
    current_depth: usize,
    max_depth: usize,
    branching: usize,
    links: Ghost<Seq<(int, int)>>,
) -> (r: Ghost<Seq<(int, int)>>)
    requires
        old(graph).wf(),
        linked_by(old(graph)@, "e"@, prefix@, links@),
        forall|t: int|
            in_subtree(
                parent_index as int,
                max_depth as int - 1 - current_depth as int,
                branching as int,
                t,
            ) ==> !has_node_id(old(graph)@.nodes, #[trigger] simple_id(prefix@, t)),
    ensures
        final(graph).wf(),
        linked_by(final(graph)@, "e"@, prefix@, r@),
        final(graph)@.nodes.len() >= old(graph)@.nodes.len(),
        final(graph)@.nodes.len() - old(graph)@.nodes.len() == final(graph)@.edges.len() - old(
            graph,
        )@.edges.len(),
        forall|t: int|
            has_node_id(final(graph)@.nodes, #[trigger] simple_id(prefix@, t)) ==> has_node_id(
                old(graph)@.nodes,
                simple_id(prefix@, t),
            ) || in_subtree(
                parent_index as int,
                max_depth as int - 1 - current_depth as int,
                branching as int,
                t,
            ),
    decreases max_depth - current_depth,
{
    if max_depth == 0 || current_depth >= max_depth - 1 {
        return links;
    }
    let ghost pfx = prefix@;
    let ghost pp = parent_index as int;
    let ghost bb = branching as int;
    let ghost hh = max_depth as int - 1 - current_depth as int;
    let epre = "e".to_owned();
    let ghost ep = epre@;
    let mut cur = links;
    let mut i: usize = 0;
    while i < branching
        invariant
            0 <= i <= branching,
            current_depth < max_depth - 1,
            hh == max_depth as int - 1 - current_depth as int,
            hh >= 1,
            pp == parent_index as int,
            bb == branching as int,
            pfx == prefix@,
            ep == "e"@,
            graph.wf(),
            linked_by(graph@, "e"@, prefix@, cur@),
            graph@.nodes.len() >= old(graph)@.nodes.len(),
            graph@.nodes.len() - old(graph)@.nodes.len() == graph@.edges.len() - old(
                graph,
            )@.edges.len(),
            forall|t: int|
                in_subtree(pp, hh, bb, t) ==> !has_node_id(
                    old(graph)@.nodes,
                    #[trigger] simple_id(pfx, t),
                ),
            forall|t: int|
                has_node_id(graph@.nodes, #[trigger] simple_id(pfx, t)) ==> has_node_id(
                    old(graph)@.nodes,
                    simple_id(pfx, t),
                ) || stage_window(pp, hh, bb, pp * bb + i as int, t),
        decreases branching - i,
    {
        proof {
            lemma_lvl_basic(pp, pp, 1, bb);
            assert(lvl_lo(pp, 0, bb) == pp);
            assert(lvl_hi(pp, 0, bb) == pp);
            assert(lvl_lo(pp, 1, bb) == pp * bb + 1);
            assert(lvl_hi(pp, 1, bb) == pp * bb + bb);
        }
        if parent_index <= (usize::MAX - i - 1) / branching {
            proof {
                let cap = (usize::MAX - i - 1) as int;
                vstd::arithmetic::div_mod::lemma_fundamental_div_mod(cap, bb);
                assert(pp * bb <= (cap / bb) * bb) by (nonlinear_arith)
                    requires
                        pp <= cap / bb && bb >= 1,
                ;
                assert((cap / bb) * bb <= cap) by (nonlinear_arith)
                    requires
                        cap == bb * (cap / bb) + cap % bb && cap % bb >= 0,
                ;
            }
            let child_index = parent_index * branching + i + 1;
            let ghost cc = child_index as int;
            proof {
                // The child index is fresh as a node id.
                if has_node_id(graph@.nodes, simple_id(pfx, cc)) {
                    if !has_node_id(old(graph)@.nodes, simple_id(pfx, cc)) {
                        let l = choose|l: int|
                            1 <= l <= hh && #[trigger] lvl_lo(pp, l, bb) <= cc && cc <= lvl_hi_off(
                                pp * bb + i,
                                l,
                                bb,
                            );
                        if l == 1 {
                            assert(lvl_hi_off(pp * bb + i, 1, bb) == pp * bb + i);
                            assert(cc <= pp * bb + i);
                        } else {
                            lemma_lvl_basic(pp * bb + i, pp * bb + bb, l - 1, bb);
                            lemma_lvl_shift(pp, l - 1, bb);
                            lemma_lvl_order(pp, 1, l, bb);
                            assert(lvl_hi_off(pp * bb + i, l, bb) <= lvl_hi(pp, l, bb));
                            assert(lvl_lo(pp, l, bb) > lvl_hi(pp, 1, bb));
                            assert(cc <= pp * bb + bb);
                        }
                        assert(false);
                    } else {
                        assert(in_subtree(pp, hh, bb, cc)) by {
                            assert(1 <= 1 <= hh && lvl_lo(pp, 1, bb) <= cc <= lvl_hi(pp, 1, bb));
                        }
                        assert(false);
                    }
                }
                // The edge id (parent, child) is fresh too.
                lemma_key_index(graph@.edges, |ed: EdgeV| ed.id, pair_id(ep, pp, cc));
                if has_edge_id(graph@.edges, pair_id(ep, pp, cc)) {
                    let kx = edge_index_of(graph@.edges, pair_id(ep, pp, cc));
                    lemma_pair_id_inj(ep, cur@[kx].0, cur@[kx].1, pp, cc);
                    assert(has_node_id(graph@.nodes, simple_id(pfx, cc)));
                    assert(false);
                }
            }
            let child_id = make_simple_id(prefix, child_index);
            let node = Node::new(child_id.clone());
            proof {
                lemma_put_node_keeps(graph@.nodes, node@);
                lemma_push_presence(graph@.nodes, node@, pfx, cc);
            }
            graph.add_node(node);
            let edge = Edge::new(
                make_pair_id(&epre, parent_index, child_index),
                make_simple_id(prefix, parent_index),
                child_id,
            );
            proof {
                lemma_put_edge_keeps(graph@.edges, edge@);
            }
            graph.add_edge(edge);
            cur = Ghost(cur@.push((pp, cc)));
            let ghost mid_nodes = graph@.nodes;
            let ghost pre_old = old(graph)@.nodes;
            // The child's own subtree is untouched so far.
            assert forall|t: int| in_subtree(cc, hh - 1, bb, t) implies !has_node_id(
                graph@.nodes,
                #[trigger] simple_id(pfx, t),
            ) by {
                let l2 = choose|l2: int|
                    1 <= l2 <= hh - 1 && lvl_lo(cc, l2, bb) <= t <= #[trigger] lvl_hi(cc, l2, bb);
                lemma_lvl_shift(pp, l2, bb);
                lemma_lvl_basic(pp * bb + 1, cc, l2, bb);
                lemma_lvl_basic(cc, pp * bb + bb, l2, bb);
                assert(lvl_lo(pp, l2 + 1, bb) <= t <= lvl_hi(pp, l2 + 1, bb));
                if has_node_id(graph@.nodes, simple_id(pfx, t)) {
                    if has_node_id(pre_old, simple_id(pfx, t)) {
                        assert(in_subtree(pp, hh, bb, t)) by {
                            assert(1 <= l2 + 1 <= hh && lvl_lo(pp, l2 + 1, bb) <= t <= lvl_hi(
                                pp,
                                l2 + 1,
                                bb,
                            ));
                        }
                        assert(false);
                    } else if stage_window(pp, hh, bb, pp * bb + i as int, t) {
                        let l = choose|l: int|
                            1 <= l <= hh && #[trigger] lvl_lo(pp, l, bb) <= t && t <= lvl_hi_off(
                                pp * bb + i,
                                l,
                                bb,
                            );
                        assert(lvl_hi_off(pp * bb + i, l, bb) == lvl_hi(pp * bb + i, l - 1, bb));
                        lemma_lvl_basic(pp * bb + i, cc, l - 1, bb);
                        if l == l2 + 1 {
                            assert(lvl_hi(pp * bb + i, l - 1, bb) < lvl_lo(cc, l - 1, bb));
                            assert(false);
                        } else if l < l2 + 1 {
                            lemma_lvl_basic(pp * bb + i, pp * bb + bb, l - 1, bb);
                            lemma_lvl_shift(pp, l - 1, bb);
                            lemma_lvl_order(pp, l, l2 + 1, bb);
                            assert(t <= lvl_hi(pp, l, bb));
                            assert(false);
                        } else {
                            lemma_lvl_basic(pp, pp, l, bb);
                            lemma_lvl_shift(pp, l - 1, bb);
                            lemma_lvl_basic(pp * bb + 1, pp * bb + i, l - 1, bb);
                            lemma_lvl_order(pp, l2 + 1, l, bb);
                            assert(lvl_lo(pp, l, bb) <= t);
                            assert(t <= lvl_hi(pp, l2 + 1, bb));
                            assert(false);
                        }
                    } else {
                        assert(t == cc);
                        lemma_lvl_basic(cc, cc, l2, bb);
                        lemma_lvl_order(cc, 0, l2, bb);
                        assert(t >= lvl_lo(cc, l2, bb));
                        assert(false);
                    }
                }
            }
            let sub = generate_tree_recursive(
                graph,
                prefix,
                child_index,
                current_depth + 1,
                max_depth,
                branching,
                cur,
            );
            cur = sub;
            proof {
                // Fold the subtree's new ids into the next stage window.
                assert forall|t: int|
                    has_node_id(graph@.nodes, #[trigger] simple_id(pfx, t)) implies has_node_id(
                    pre_old,
                    simple_id(pfx, t),
                ) || stage_window(pp, hh, bb, pp * bb + (i + 1) as int, t) by {
                    if !has_node_id(pre_old, simple_id(pfx, t)) {
                        if has_node_id(mid_nodes, simple_id(pfx, t)) {
                            if stage_window(pp, hh, bb, pp * bb + i as int, t) {
                                let l = choose|l: int|
                                    1 <= l <= hh && #[trigger] lvl_lo(pp, l, bb) <= t && t
                                        <= lvl_hi_off(pp * bb + i, l, bb);
                                lemma_lvl_basic(pp * bb + i, pp * bb + i + 1, l - 1, bb);
                                assert(lvl_hi_off(pp * bb + i, l, bb) <= lvl_hi_off(
                                    pp * bb + (i + 1) as int,
                                    l,
                                    bb,
                                ));
                                assert(1 <= l <= hh && lvl_lo(pp, l, bb) <= t && t <= lvl_hi_off(
                                    pp * bb + (i + 1) as int,
                                    l,
                                    bb,
                                ));
                            } else {
                                assert(t == cc);
                                assert(lvl_hi_off(pp * bb + (i + 1) as int, 1, bb) == pp * bb + i
                                    + 1);
                                assert(1 <= 1 <= hh && lvl_lo(pp, 1, bb) <= t && t <= lvl_hi_off(
                                    pp * bb + (i + 1) as int,
                                    1,
                                    bb,
                                ));
                            }
                        } else {
                            let l2 = choose|l2: int|
                                1 <= l2 <= hh - 1 && lvl_lo(cc, l2, bb) <= t <= #[trigger] lvl_hi(
                                    cc,
                                    l2,
                                    bb,
                                );
                            lemma_lvl_shift(pp, l2, bb);
                            lemma_lvl_basic(pp * bb + 1, cc, l2, bb);
                            assert(lvl_lo(pp, l2 + 1, bb) <= t);
                            assert(lvl_hi_off(pp * bb + (i + 1) as int, l2 + 1, bb) == lvl_hi(
                                cc,
                                l2,
                                bb,
                            ));
                            assert(1 <= l2 + 1 <= hh && lvl_lo(pp, l2 + 1, bb) <= t && t
                                <= lvl_hi_off(pp * bb + (i + 1) as int, l2 + 1, bb));
                        }
                    }
                }
            }
        } else {
            proof {
                assert forall|t: int|
                    has_node_id(graph@.nodes, #[trigger] simple_id(pfx, t)) implies has_node_id(
                    old(graph)@.nodes,
                    simple_id(pfx, t),
                ) || stage_window(pp, hh, bb, pp * bb + (i + 1) as int, t) by {
                    if !has_node_id(old(graph)@.nodes, simple_id(pfx, t)) {
                        let l = choose|l: int|
                            1 <= l <= hh && #[trigger] lvl_lo(pp, l, bb) <= t && t <= lvl_hi_off(
                                pp * bb + i,
                                l,
                                bb,
                            );
                        lemma_lvl_basic(pp * bb + i, pp * bb + i + 1, l - 1, bb);
                        assert(lvl_hi_off(pp * bb + i, l, bb) <= lvl_hi_off(
                            pp * bb + (i + 1) as int,
                            l,
                            bb,
                        ));
                        assert(1 <= l <= hh && lvl_lo(pp, l, bb) <= t && t <= lvl_hi_off(
                            pp * bb + (i + 1) as int,
                            l,
                            bb,
                        ));
                    }
                }
            }
        }
        i = i + 1;
    }
    proof {
        // At the last stage every window coincides with the subtree level.
        assert forall|t: int|
            has_node_id(graph@.nodes, #[trigger] simple_id(pfx, t)) implies has_node_id(
            old(graph)@.nodes,
            simple_id(pfx, t),
        ) || in_subtree(pp, hh, bb, t) by {
            if !has_node_id(old(graph)@.nodes, simple_id(pfx, t)) {
                let l = choose|l: int|
                    1 <= l <= hh && #[trigger] lvl_lo(pp, l, bb) <= t && t <= lvl_hi_off(
                        pp * bb + bb,
                        l,
                        bb,
                    );
                lemma_lvl_shift(pp, l - 1, bb);
                assert(lvl_hi_off(pp * bb + bb, l, bb) == lvl_hi(pp, l, bb));
                assert(1 <= l <= hh && lvl_lo(pp, l, bb) <= t <= lvl_hi(pp, l, bb));
            }
        }
    }
    cur
}

/// The preferential-attachment generator: a complete seed graph on
/// `edges_per_node + 1` nodes, then each further node draws up to
/// `edges_per_node` distinct neighbors at random, weighted by degree.
/// `edges_per_node` must be strictly positive and strictly below `nodes`.
pub fn generate_barabasi_albert(params: &Vec<Attr>) -> (r: Result<Graph, String>)
    ensures
        ({
            let ps = attrs_view(params@);
            match r {
                Ok(g) => {
                    &&& param_count_ok(ps, "nodes"@)
                    &&& param_count_ok(ps, "edges_per_node"@)
                    &&& ({
                        let n = param_count(ps, "nodes"@);
                        let m = param_count(ps, "edges_per_node"@);
                        &&& 1 <= m < n
                        &&& g.wf()
                        &&& g@.nodes.len() == n
                        &&& g@.edges.len() >= tri_sum(m + 1, m + 1) + (n - m - 1)
                        &&& g@.edges.len() <= tri_sum(m + 1, m + 1) + (n - m - 1) * m
                        &&& ({
                            let pfx = param_string(ps, "prefix"@, "n"@);
                            &&& (forall|t: int| 0 <= t < n ==> g@.nodes[t] == gen_node(pfx, t))
                            &&& (forall|x: int, y: int|
                                0 <= x < y < m + 1 ==> has_edge_id(
                                    g@.edges,
                                    #[trigger] pair_id("e"@, x, y),
                                ) && edge_at(g@.edges, pair_id("e"@, x, y)) == gen_edge(
                                    "e"@,
                                    pfx,
                                    x,
                                    y,
                                    x,
                                    y,
                                ))
                            &&& (forall|k: int|
                                0 <= k < g@.edges.len() ==> has_node_id(
                                    g@.nodes,
                                    (#[trigger] g@.edges[k]).source,
                                ) && has_node_id(g@.nodes, g@.edges[k].target))
                        })
                    })
                },
                Err(_) => !(param_count_ok(ps, "nodes"@) && param_count_ok(ps, "edges_per_node"@))
                    || param_count(ps, "edges_per_node"@) >= param_count(ps, "nodes"@)
                    || param_count(ps, "edges_per_node"@) == 0,
            }
        }),
{
    let ghost ps = attrs_view(params@);
    let n = match get_param_int(params, &"nodes".to_owned()) {
        Ok(v) => v,
        Err(e) => {
            return Err(e);
        },
    };
    let m = match get_param_int(params, &"edges_per_node".to_owned()) {
        Ok(v) => v,
        Err(e) => {
            return Err(e);
        },
    };
    let prefix = get_param_string(params, &"prefix".to_owned(), "n");
    if m >= n {
        return Err("edges_per_node must be less than nodes".to_owned());
    }
    if m == 0 {
        return Err("edges_per_node must be greater than 0".to_owned());
    }
    let ghost pfx = prefix@;
    let mut graph = Graph::new();
    let mut rng = fresh_rng();
    let initial_nodes = m + 1;
    let mut i: usize = 0;
    while i < initial_nodes
        invariant
            0 <= i <= initial_nodes,
            graph.wf(),
            graph@.edges.len() == 0,
            graph@.nodes.len() == i,
            forall|t: int| 0 <= t < i ==> #[trigger] graph@.nodes[t] == gen_node(pfx, t),
        decreases initial_nodes - i,
    {
        proof {
            lemma_fresh_simple_node(graph@, pfx, i as int);
        }
        graph.add_node(Node::new(make_simple_id(&prefix, i)));
        i = i + 1;
    }
    let epre = "e".to_owned();
    let ghost ep = epre@;
    let ghost mut pairs: Seq<(int, int)> = Seq::<(int, int)>::empty();
    let mut a: usize = 0;
    while a < initial_nodes
        invariant
            0 <= a <= initial_nodes,
            graph.wf(),
            graph@.nodes.len() == initial_nodes,
            graph@.edges.len() == tri_sum(initial_nodes as int, a as int),
            pairs.len() == graph@.edges.len(),
            forall|t: int| 0 <= t < initial_nodes ==> #[trigger] graph@.nodes[t] == gen_node(
                pfx,
                t,
            ),
            forall|k: int|
                0 <= k < pairs.len() ==> #[trigger] graph@.edges[k] == gen_edge(
                    ep,
                    pfx,
                    pairs[k].0,
                    pairs[k].1,
                    pairs[k].0,
                    pairs[k].1,
                ),
            forall|k: int|
                0 <= k < pairs.len() ==> 0 <= (#[trigger] pairs[k]).0 < pairs[k].1 < initial_nodes
                    && pairs[k].0 < a,
            forall|x: int, y: int|
                0 <= x < y < initial_nodes && x < a ==> has_edge_id(
                    graph@.edges,
                    #[trigger] pair_id(ep, x, y),
                ) && edge_at(graph@.edges, pair_id(ep, x, y)) == gen_edge(ep, pfx, x, y, x, y),
        decreases initial_nodes - a,
    {
        let mut b: usize = a + 1;
        proof {
            lemma_tri_sum(initial_nodes as int, a as int);
        }
        while b < initial_nodes
            invariant
                a < b <= initial_nodes,
                a < initial_nodes,
                graph.wf(),
                graph@.nodes.len() == initial_nodes,
                graph@.edges.len() == tri_sum(initial_nodes as int, a as int) + (b - a - 1),
                pairs.len() == graph@.edges.len(),
                forall|t: int| 0 <= t < initial_nodes ==> #[trigger] graph@.nodes[t] == gen_node(
                    pfx,
                    t,
                ),
                forall|k: int|
                    0 <= k < pairs.len() ==> #[trigger] graph@.edges[k] == gen_edge(
                        ep,
                        pfx,
                        pairs[k].0,
                        pairs[k].1,
                        pairs[k].0,
                        pairs[k].1,
                    ),
                forall|k: int|
                    0 <= k < pairs.len() ==> 0 <= (#[trigger] pairs[k]).0 < pairs[k].1
                        < initial_nodes && (pairs[k].0 < a || (pairs[k].0 == a && pairs[k].1 < b)),
                forall|x: int, y: int|
                    0 <= x < y < initial_nodes && (x < a || (x == a && y < b)) ==> has_edge_id(
                        graph@.edges,
                        #[trigger] pair_id(ep, x, y),
                    ) && edge_at(graph@.edges, pair_id(ep, x, y)) == gen_edge(ep, pfx, x, y, x, y),
            decreases initial_nodes - b,
        {
            proof {
                lemma_key_index(graph@.edges, |ed: EdgeV| ed.id, pair_id(ep, a as int, b as int));
                if has_edge_id(graph@.edges, pair_id(ep, a as int, b as int)) {
                    let kx = edge_index_of(graph@.edges, pair_id(ep, a as int, b as int));
                    lemma_pair_id_inj(ep, pairs[kx].0, pairs[kx].1, a as int, b as int);
                    assert(false);
                }
            }
            let e = Edge::new(
                make_pair_id(&epre, a, b),
                make_simple_id(&prefix, a),
                make_simple_id(&prefix, b),
            );
            proof {
                lemma_put_edge_keeps(graph@.edges, e@);
            }
            graph.add_edge(e);
            proof {
                pairs = pairs.push((a as int, b as int));
            }
            b = b + 1;
        }
        assert(tri_sum(initial_nodes as int, a + 1 as int) == tri_sum(initial_nodes as int, a as int)
            + (initial_nodes - a - 1));
        a = a + 1;
    }
    let ghost seed_edges: int = tri_sum(initial_nodes as int, initial_nodes as int);
    let mut i2: usize = initial_nodes;
    while i2 < n
        invariant
            initial_nodes <= i2 <= n,
            initial_nodes == m + 1,
            1 <= m < n,
            graph.wf(),
            graph@.nodes.len() == i2,
            graph@.edges.len() >= seed_edges + (i2 - initial_nodes),
            graph@.edges.len() <= seed_edges + (i2 - initial_nodes) * (m as int),
            pairs.len() == graph@.edges.len(),
            forall|t: int| 0 <= t < i2 ==> #[trigger] graph@.nodes[t] == gen_node(pfx, t),
            forall|k: int|
                0 <= k < pairs.len() ==> #[trigger] graph@.edges[k] == gen_edge(
                    ep,
                    pfx,
                    pairs[k].0,
                    pairs[k].1,
                    pairs[k].0,
                    pairs[k].1,
                ),
            forall|k: int|
                0 <= k < pairs.len() ==> 0 <= (#[trigger] pairs[k]).0 < i2 && 0 <= pairs[k].1 < i2,
            forall|x: int, y: int|
                0 <= x < y < initial_nodes ==> has_edge_id(
                    graph@.edges,
                    #[trigger] pair_id(ep, x, y),
                ) && edge_at(graph@.edges, pair_id(ep, x, y)) == gen_edge(ep, pfx, x, y, x, y),
        decreases n - i2,
    {
        proof {
            lemma_fresh_simple_node(graph@, pfx, i2 as int);
        }
        graph.add_node(Node::new(make_simple_id(&prefix, i2)));
        let mut candidates: Vec<usize> = Vec::new();
        let mut j: usize = 0;
        while j < i2
            invariant
                0 <= j <= i2,
                candidates@.len() >= j,
                forall|k: int| 0 <= k < candidates@.len() ==> (#[trigger] candidates@[k]) < i2,
            decreases i2 - j,
        {
            let node_id = make_simple_id(&prefix, j);
            let mut degree: usize = 0;
            let mut e: usize = 0;
            while e < graph.edges.len()
                invariant
                    0 <= e <= graph.edges.len(),
                    degree <= e,
                decreases graph.edges.len() - e,
            {
                if graph.edges[e].source == node_id || graph.edges[e].target == node_id {
                    degree = degree + 1;
                }
                e = e + 1;
            }
            let reps = if degree == 0 {
                1
            } else {
                degree
            };
            let mut rp: usize = 0;
            while rp < reps
                invariant
                    0 <= rp <= reps,
                    j < i2,
                    candidates@.len() >= j + rp,
                    forall|k: int| 0 <= k < candidates@.len() ==> (#[trigger] candidates@[k]) < i2,
                decreases reps - rp,
            {
                candidates.push(j);
                rp = rp + 1;
            }
            j = j + 1;
        }
        let mut selected: Vec<usize> = Vec::new();
        let mut attempts: usize = 0;
        while selected.len() < m && attempts < 1000
            invariant
                selected@.len() <= m,
                attempts >= 1 ==> selected@.len() >= 1,
                candidates@.len() >= 1,
                forall|k: int| 0 <= k < candidates@.len() ==> (#[trigger] candidates@[k]) < i2,
                forall|k: int| 0 <= k < selected@.len() ==> (#[trigger] selected@[k]) < i2,
                forall|u: int, v: int|
                    0 <= u < v < selected@.len() ==> selected@[u] != selected@[v],
            decreases 1000 - attempts,
        {
            let idx = rng_below(&mut rng, candidates.len());
            let val = candidates[idx];
            if !index_list_contains(&selected, val) {
                selected.push(val);
            }
            attempts = attempts + 1;
        }
        let ghost e0: int = graph@.edges.len() as int;
        let mut t: usize = 0;
        while t < selected.len()
            invariant
                0 <= t <= selected@.len(),
                1 <= selected@.len() <= m,
                graph.wf(),
                graph@.nodes.len() == i2 + 1,
                graph@.edges.len() == e0 + t,
                pairs.len() == graph@.edges.len(),
                forall|tt: int| 0 <= tt < i2 + 1 ==> #[trigger] graph@.nodes[tt] == gen_node(
                    pfx,
                    tt,
                ),
                forall|k: int| 0 <= k < selected@.len() ==> (#[trigger] selected@[k]) < i2,
                forall|u: int, v: int|
                    0 <= u < v < selected@.len() ==> selected@[u] != selected@[v],
                forall|k: int|
                    0 <= k < pairs.len() ==> #[trigger] graph@.edges[k] == gen_edge(
                        ep,
                        pfx,
                        pairs[k].0,
                        pairs[k].1,
                        pairs[k].0,
                        pairs[k].1,
                    ),
                forall|k: int|
                    0 <= k < pairs.len() ==> 0 <= (#[trigger] pairs[k]).0 <= i2 && 0 <= pairs[k].1
                        < i2,
                forall|x: int, y: int|
                    0 <= x < y < initial_nodes ==> has_edge_id(
                        graph@.edges,
                        #[trigger] pair_id(ep, x, y),
                    ) && edge_at(graph@.edges, pair_id(ep, x, y)) == gen_edge(ep, pfx, x, y, x, y),
                forall|k: int|
                    0 <= k < pairs.len() && (#[trigger] pairs[k]).0 == i2 ==> k >= e0 && exists|
                        u: int,
                    |
                        0 <= u < t && pairs[k].1 == selected@[u],
            decreases selected@.len() - t,
        {
            let target_idx = selected[t];
            proof {
                lemma_key_index(graph@.edges, |ed: EdgeV| ed.id, pair_id(
                    ep,
                    i2 as int,
                    target_idx as int,
                ));
                if has_edge_id(graph@.edges, pair_id(ep, i2 as int, target_idx as int)) {
                    let kx = edge_index_of(graph@.edges, pair_id(ep, i2 as int, target_idx as int));
                    lemma_pair_id_inj(ep, pairs[kx].0, pairs[kx].1, i2 as int, target_idx as int);
                    let u = choose|u: int| 0 <= u < t && pairs[kx].1 == selected@[u];
                    assert(selected@[u] == selected@[t as int]);
                    assert(false);
                }
            }
            let e = Edge::new(
                make_pair_id(&epre, i2, target_idx),
                make_simple_id(&prefix, i2),
                make_simple_id(&prefix, target_idx),
            );
            proof {
                lemma_put_edge_keeps(graph@.edges, e@);
            }
            graph.add_edge(e);
            proof {
                pairs = pairs.push((i2 as int, target_idx as int));
            }
            t = t + 1;
        }
        proof {
            let d = i2 as int - initial_nodes as int;
            assert((d + 1) * (m as int) == d * (m as int) + (m as int)) by (nonlinear_arith);
        }
        i2 = i2 + 1;
    }
    proof {
        lemma_tri_sum(initial_nodes as int, initial_nodes as int);
        assert forall|k: int| 0 <= k < graph@.edges.len() implies has_node_id(
            graph@.nodes,
            (#[trigger] graph@.edges[k]).source,
        ) && has_node_id(graph@.nodes, graph@.edges[k].target) by {
            let x = pairs[k].0;
            let y = pairs[k].1;
            assert(graph@.edges[k].source == simple_id(pfx, x));
            assert(graph@.edges[k].target == simple_id(pfx, y));
            assert(graph@.nodes[x].id == simple_id(pfx, x));
            assert(graph@.nodes[y].id == simple_id(pfx, y));
            lemma_key_index(graph@.nodes, |nd: NodeV| nd.id, simple_id(pfx, x));
            lemma_key_index(graph@.nodes, |nd: NodeV| nd.id, simple_id(pfx, y));
        }
    }
    Ok(graph)
}

/// The built-in generator a name denotes, if any.
pub enum GeneratorKind {
    Complete,
    Path,
    Cycle,
    Grid,
    Star,
    Tree,
    BarabasiAlbert,
}

/// The generator registered under a name.
pub open spec fn spec_generator_kind(name: Seq<char>) -> Option<GeneratorKind> {
    if name == "complete"@ {
        Some(GeneratorKind::Complete)
    } else if name == "path"@ {
        Some(GeneratorKind::Path)
    } else if name == "cycle"@ {
        Some(GeneratorKind::Cycle)
    } else if name == "grid"@ {
        Some(GeneratorKind::Grid)
    } else if name == "star"@ {
        Some(GeneratorKind::Star)
    } else if name == "tree"@ {
        Some(GeneratorKind::Tree)
    } else if name == "barabasi_albert"@ {
        Some(GeneratorKind::BarabasiAlbert)
    } else {
        None
    }
}

/// Lookup of a built-in generator by name; an unknown name is reported to
/// the caller as "no generator".
pub fn get_generator(name: &String) -> (r: Option<GeneratorKind>)
    ensures
        r == spec_generator_kind(name@),
{
    if *name == "complete".to_owned() {
        Some(GeneratorKind::Complete)
    } else if *name == "path".to_owned() {
        Some(GeneratorKind::Path)
    } else if *name == "cycle".to_owned() {
        Some(GeneratorKind::Cycle)
    } else if *name == "grid".to_owned() {
        Some(GeneratorKind::Grid)
    } else if *name == "star".to_owned() {
        Some(GeneratorKind::Star)
    } else if *name == "tree".to_owned() {
        Some(GeneratorKind::Tree)
    } else if *name == "barabasi_albert".to_owned() {
        Some(GeneratorKind::BarabasiAlbert)
    } else {
        None
    }
}

} // verus!
