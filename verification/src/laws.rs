//! What comparing values, asking for neighbours, traversing and reading
//! JSON promise, stated over all inputs.
use vstd::prelude::*;
use crate::arrow::ArrowModel;
use crate::node::{NodeModel, node_wf, links_to, flat_links, lemma_flat_links_linked, lemma_links_to_flat};
use crate::parse::{FloatTableModel, is_ws, skip_ws, has_at, parse_value, parse_items, parse_members, parse_document};
use crate::json::{escape_body, json_text};
use crate::roundtrip::{
    plain_value, all_ws, lemma_skip_exact, lemma_has_at_index, lemma_parse_escaped, lemma_parse_json, lemma_json_first,
    lemma_stop_boundary,
};
use crate::graph::{arrow_targets, GraphModel, step, is_path, reachable, traversal_keys};
use crate::value::{ValueModel, Entries, model_eq, keys_unique, obj_lookup, obj_pos, lemma_obj_pos};

verus! {

// ---------------------------------------------------------------------------
// Neighbours through an arrow
// ---------------------------------------------------------------------------

/// An identifier is among the targets through `a` exactly when some pair
/// holds `a` and that identifier.
proof fn lemma_arrow_targets_contains(fl: Seq<(ArrowModel, u128)>, a: ArrowModel, y: u128)
    ensures
        arrow_targets(fl, a).contains(y) <==> exists|j: int| 0 <= j < fl.len() && #[trigger] fl[j] == (a, y),
    decreases fl.len(),
{
    if fl.len() > 0 {
        let pre = fl.subrange(0, fl.len() - 1);
        lemma_arrow_targets_contains(pre, a, y);
        let rest = arrow_targets(pre, a);
        let last = fl[fl.len() - 1];
        if arrow_targets(fl, a).contains(y) {
            if last.0 == a && last.1 == y {
                assert(fl[fl.len() - 1] == (a, y));
            } else {
                if last.0 == a {
                    let k = choose|k: int| 0 <= k < rest.push(last.1).len() && rest.push(last.1)[k] == y;
                    assert(k < rest.len());
                    assert(rest[k] == y);
                }
                assert(rest.contains(y));
                let j = choose|j: int| 0 <= j < pre.len() && #[trigger] pre[j] == (a, y);
                assert(fl[j] == pre[j]);
            }
        }
        if exists|j: int| 0 <= j < fl.len() && #[trigger] fl[j] == (a, y) {
            let j = choose|j: int| 0 <= j < fl.len() && #[trigger] fl[j] == (a, y);
            if j < pre.len() {
                assert(pre[j] == fl[j]);
                assert(rest.contains(y));
                if last.0 == a {
                    let k = choose|k: int| 0 <= k < rest.len() && rest[k] == y;
                    assert(rest.push(last.1)[k] == y);
                }
            } else {
                assert(rest.push(last.1)[rest.len() as int] == y);
            }
        }
    }
}

/// The neighbours of a well-formed node through arrow `a` are exactly the
/// identifiers it links to through `a`: an identifier linked only through
/// another arrow (the reverse of `a`, say) is not among them.
pub proof fn law_neighbors_through_arrow(n: NodeModel, a: ArrowModel, y: u128)
    requires
        node_wf(n),
    ensures
        arrow_targets(flat_links(n.links), a).contains(y) <==> links_to(n, a, y),
{
    let fl = flat_links(n.links);
    lemma_arrow_targets_contains(fl, a, y);
    if links_to(n, a, y) {
        let j = lemma_links_to_flat(n, a, y);
        assert(fl[j] == (a, y));
    }
    if arrow_targets(fl, a).contains(y) {
        let j = choose|j: int| 0 <= j < fl.len() && #[trigger] fl[j] == (a, y);
        lemma_flat_links_linked(n, j);
    }
}

// ---------------------------------------------------------------------------
// Equality of values
// ---------------------------------------------------------------------------

/// Every object in the value, at any depth, has distinct keys (as every
/// object the library builds has).
pub open spec fn keys_unique_deep(v: ValueModel) -> bool
    decreases v,
{
    match v {
        ValueModel::List(xs) => forall|i: int| 0 <= i < xs.len() ==> keys_unique_deep(#[trigger] xs[i]),
        ValueModel::Object(es) => keys_unique(es) && forall|i: int|
            0 <= i < es.len() ==> keys_unique_deep(#[trigger] es[i].1),
        _ => true,
    }
}

/// The keys of entries, as a set.
pub open spec fn key_set(es: Entries) -> Set<Seq<char>> {
    Seq::new(es.len(), |i: int| es[i].0).to_set()
}

/// In entries with distinct keys, the lookup of the key at `j` finds the
/// value at `j`.
proof fn lemma_lookup_unique(es: Entries, j: int)
    requires
        keys_unique(es),
        0 <= j < es.len(),
    ensures
        obj_lookup(es, es[j].0) == Some(es[j].1),
{
    lemma_obj_pos(es, es[j].0);
}

/// Entries with distinct keys have as many keys as entries.
proof fn lemma_key_set_len(es: Entries)
    requires
        keys_unique(es),
    ensures
        key_set(es).len() == es.len(),
        key_set(es).finite(),
        forall|k: Seq<char>| #[trigger] key_set(es).contains(k) <==> exists|j: int| 0 <= j < es.len() && es[j].0 == k,
{
    let ks = Seq::new(es.len(), |i: int| es[i].0);
    assert(ks.no_duplicates()) by {
        assert forall|i: int, j: int| 0 <= i < j < ks.len() implies ks[i] != ks[j] by {
            assert(es[i].0 != es[j].0);
        }
    }
    ks.unique_seq_to_set();
    assert forall|k: Seq<char>| #[trigger] key_set(es).contains(k) <==> exists|j: int| 0 <= j < es.len() && es[j].0 == k by {
        if key_set(es).contains(k) {
            let j = choose|j: int| 0 <= j < ks.len() && ks[j] == k;
            assert(es[j].0 == k);
        }
        if exists|j: int| 0 <= j < es.len() && es[j].0 == k {
            let j = choose|j: int| 0 <= j < es.len() && es[j].0 == k;
            assert(ks[j] == k);
        }
    }
}

/// Two equal objects with distinct keys have the same keys.
pub proof fn law_equal_objects_same_keys(es: Entries, fs: Entries)
    requires
        keys_unique(es),
        keys_unique(fs),
        model_eq(ValueModel::Object(es), ValueModel::Object(fs)),
    ensures
        key_set(es) == key_set(fs),
{
    lemma_key_set_len(es);
    lemma_key_set_len(fs);
    assert forall|k: Seq<char>| #[trigger] key_set(es).contains(k) implies key_set(fs).contains(k) by {
        let j = choose|j: int| 0 <= j < es.len() && es[j].0 == k;
        assert(obj_lookup(fs, es[j].0) is Some);
        lemma_obj_pos(fs, k);
        let p = obj_pos(fs, k)->Some_0;
        assert(fs[p].0 == k);
    }
    vstd::set_lib::lemma_subset_equality(key_set(es), key_set(fs));
}

/// Equality of values is symmetric: when `a` equals `b`, `b` equals `a`. In
/// particular an object equals only an object with the same keys, each
/// bound to an equal value; one with more keys is not equal to it.
pub proof fn law_value_equality_symmetric(a: ValueModel, b: ValueModel)
    requires
        keys_unique_deep(a),
        keys_unique_deep(b),
        model_eq(a, b),
    ensures
        model_eq(b, a),
    decreases a,
{
    match a {
        ValueModel::List(xs) => {
            let ys = b->List_0;
            assert forall|i: int| 0 <= i < ys.len() implies model_eq(ys[i], xs[i]) by {
                assert(keys_unique_deep(xs[i]));
                assert(keys_unique_deep(ys[i]));
                law_value_equality_symmetric(xs[i], ys[i]);
            }
        },
        ValueModel::Object(es) => {
            let fs = b->Object_0;
            law_equal_objects_same_keys(es, fs);
            lemma_key_set_len(es);
            lemma_key_set_len(fs);
            assert forall|j: int| 0 <= j < fs.len() implies (match obj_lookup(es, #[trigger] fs[j].0) {
                Some(w) => model_eq(fs[j].1, w),
                None => false,
            }) by {
                let k = fs[j].0;
                assert(key_set(fs).contains(k));
                let p = choose|p: int| 0 <= p < es.len() && es[p].0 == k;
                lemma_lookup_unique(es, p);
                lemma_lookup_unique(fs, j);
                assert(obj_lookup(fs, es[p].0) == Some(fs[j].1));
                assert(model_eq(es[p].1, fs[j].1));
                assert(keys_unique_deep(es[p].1));
                assert(keys_unique_deep(fs[j].1));
                law_value_equality_symmetric(es[p].1, fs[j].1);
            }
        },
        _ => {},
    }
}

/// No float in the value, at any depth, is NaN.
pub open spec fn nan_free(v: ValueModel) -> bool
    decreases v,
{
    match v {
        ValueModel::Float(bits, _) => !crate::value::is_nan(bits),
        ValueModel::List(xs) => forall|i: int| 0 <= i < xs.len() ==> nan_free(#[trigger] xs[i]),
        ValueModel::Object(es) => forall|i: int| 0 <= i < es.len() ==> nan_free(#[trigger] es[i].1),
        _ => true,
    }
}

/// Every value without NaN, whose objects have distinct keys, equals
/// itself.
pub proof fn law_value_equality_reflexive(a: ValueModel)
    requires
        keys_unique_deep(a),
        nan_free(a),
    ensures
        model_eq(a, a),
    decreases a,
{
    match a {
        ValueModel::List(xs) => {
            assert forall|i: int| 0 <= i < xs.len() implies model_eq(xs[i], xs[i]) by {
                assert(keys_unique_deep(xs[i]) && nan_free(xs[i]));
                law_value_equality_reflexive(xs[i]);
            }
        },
        ValueModel::Object(es) => {
            assert forall|i: int| 0 <= i < es.len() implies (match obj_lookup(es, #[trigger] es[i].0) {
                Some(w) => model_eq(es[i].1, w),
                None => false,
            }) by {
                lemma_lookup_unique(es, i);
                assert(keys_unique_deep(es[i].1) && nan_free(es[i].1));
                law_value_equality_reflexive(es[i].1);
            }
        },
        _ => {},
    }
}

/// Equality looks inside containers: a one-item list equals another
/// exactly when the items are equal, and an object of one key equals an
/// object of the same key exactly when the values bound to it are equal.
pub proof fn law_value_equality_looks_inside(k: Seq<char>, v: ValueModel, w: ValueModel)
    ensures
        model_eq(ValueModel::List(seq![v]), ValueModel::List(seq![w])) <==> model_eq(v, w),
        model_eq(ValueModel::Object(seq![(k, v)]), ValueModel::Object(seq![(k, w)])) <==> model_eq(v, w),
{
    let es = seq![(k, v)];
    let fs = seq![(k, w)];
    lemma_lookup_unique(fs, 0);
    assert(es[0].0 == k);
    assert(seq![v][0] == v && seq![w][0] == w);
}

// ---------------------------------------------------------------------------
// Traversal through one arrow
// ---------------------------------------------------------------------------

/// Node `x` of the graph has a link to `y` through arrow `b` itself.
pub open spec fn link_through(g: GraphModel, b: ArrowModel, x: u128, y: u128) -> bool {
    g.contains_key(x) && flat_links(g[x].links).contains((b, y))
}

/// A sequence of nodes, each linked to the next through arrow `b` itself.
pub open spec fn path_through(g: GraphModel, b: ArrowModel, p: Seq<u128>) -> bool {
    p.len() >= 1 && forall|i: int| 0 <= i < p.len() - 1 ==> #[trigger] link_through(g, b, p[i], p[i + 1])
}

/// `x` can be reached from `s` through links of arrow `b` only.
pub open spec fn reached_through(g: GraphModel, b: ArrowModel, s: u128, x: u128) -> bool {
    exists|p: Seq<u128>| #[trigger] path_through(g, b, p) && p[0] == s && p[p.len() - 1] == x
}

/// A step of a traversal filtered by `b` is a link through `b` itself.
proof fn lemma_step_through(g: GraphModel, b: ArrowModel, x: u128, y: u128)
    ensures
        step(g, Some(b), x, y) <==> link_through(g, b, x, y),
{
    let fl = flat_links(g[x].links);
    if step(g, Some(b), x, y) {
        let j = choose|j: int| 0 <= j < fl.len() && (#[trigger] fl[j]).1 == y && crate::graph::passes(Some(b), fl[j].0);
        assert(fl[j] == (b, y));
    }
    if link_through(g, b, x, y) {
        let j = choose|j: int| 0 <= j < fl.len() && fl[j] == (b, y);
        assert(fl[j].1 == y);
    }
}

/// A traversal from `s` filtered by arrow `b` gives exactly the nodes that
/// `s` reaches through links of `b` itself: never one reached only by
/// following another arrow, such as the reverse of `b`.
pub proof fn law_traversal_through_arrow(g: GraphModel, b: ArrowModel, s: u128, ks: Seq<u128>, x: u128)
    requires
        traversal_keys(g, Some(b), s, ks),
    ensures
        ks.contains(x) <==> reached_through(g, b, s, x),
{
    if reachable(g, Some(b), s, x) {
        let p = choose|p: Seq<u128>| #[trigger] is_path(g, Some(b), p) && p[0] == s && p[p.len() - 1] == x;
        assert forall|i: int| 0 <= i < p.len() - 1 implies #[trigger] link_through(g, b, p[i], p[i + 1]) by {
            assert(step(g, Some(b), p[i], p[i + 1]));
            lemma_step_through(g, b, p[i], p[i + 1]);
        }
        assert(path_through(g, b, p));
    }
    if reached_through(g, b, s, x) {
        let p = choose|p: Seq<u128>| #[trigger] path_through(g, b, p) && p[0] == s && p[p.len() - 1] == x;
        assert forall|i: int| 0 <= i < p.len() - 1 implies #[trigger] step(g, Some(b), p[i], p[i + 1]) by {
            assert(link_through(g, b, p[i], p[i + 1]));
            lemma_step_through(g, b, p[i], p[i + 1]);
        }
        assert(is_path(g, Some(b), p));
    }
}

// ---------------------------------------------------------------------------
// Whitespace in JSON text
// ---------------------------------------------------------------------------

/// JSON whitespace: spaces, tabs, line feeds and carriage returns only.
pub open spec fn json_space(w: Seq<char>) -> bool {
    forall|k: int| 0 <= k < w.len() ==> w[k] == ' ' || w[k] == '\t' || w[k] == '\n' || w[k] == '\r'
}

/// The parts of a text, one after the other.
pub open spec fn concat(ps: Seq<Seq<char>>) -> Seq<char>
    decreases ps.len(),
{
    if ps.len() == 0 {
        Seq::empty()
    } else {
        concat(ps.drop_last()) + ps.last()
    }
}

/// Where part `i` starts in the text of the parts.
pub open spec fn offset(ps: Seq<Seq<char>>, i: int) -> int {
    concat(ps.subrange(0, i)).len() as int
}

/// A text is still there when more follows it.
proof fn lemma_has_at_extend(x: Seq<char>, y: Seq<char>, i: int, lit: Seq<char>)
    requires
        has_at(x, i, lit),
    ensures
        has_at(x + y, i, lit),
{
    assert((x + y).subrange(i, i + lit.len()) =~= x.subrange(i, i + lit.len()));
}

/// Each part stands at its offset, and the offsets add up.
proof fn lemma_concat_parts(ps: Seq<Seq<char>>)
    ensures
        offset(ps, ps.len() as int) == concat(ps).len(),
        forall|i: int|
            0 <= i < ps.len() ==> #[trigger] has_at(concat(ps), offset(ps, i), ps[i]) && offset(ps, i + 1) == offset(ps, i)
                + ps[i].len(),
    decreases ps.len(),
{
    assert(ps.subrange(0, ps.len() as int) =~= ps);
    if ps.len() > 0 {
        let pre = ps.drop_last();
        lemma_concat_parts(pre);
        let c = concat(pre);
        assert forall|i: int| 0 <= i < ps.len() implies #[trigger] has_at(concat(ps), offset(ps, i), ps[i]) && offset(
            ps,
            i + 1,
        ) == offset(ps, i) + ps[i].len() by {
            assert(ps.subrange(0, i) =~= pre.subrange(0, i));
            if i < pre.len() {
                assert(ps.subrange(0, i + 1) =~= pre.subrange(0, i + 1));
                assert(has_at(c, offset(pre, i), pre[i]));
                lemma_has_at_extend(c, ps.last(), offset(pre, i), pre[i]);
            } else {
                assert(pre.subrange(0, i) =~= pre);
                assert((c + ps.last()).subrange(c.len() as int, (c + ps.last()).len() as int) =~= ps.last());
            }
        }
    }
}

/// JSON whitespace, as the reader sees it.
proof fn lemma_json_space(w: Seq<char>)
    requires
        json_space(w),
    ensures
        all_ws(w),
{
    assert forall|k: int| 0 <= k < w.len() implies is_ws(#[trigger] w[k]) by {}
}

/// A string literal.
pub open spec fn quoted_key(k: Seq<char>) -> Seq<char> {
    seq!['"'] + escape_body(k) + seq!['"']
}

/// A member `"k" w2 : w3 v w4` at `j`, then `close`: a closing brace ends
/// the object there; a comma goes on with the next member, `k` bound to `v`.
#[verifier::spinoff_prover]
proof fn lemma_member_then(
    s: Seq<char>,
    j: int,
    acc: Entries,
    k: Seq<char>,
    v: ValueModel,
    t: FloatTableModel,
    w2: Seq<char>,
    w3: Seq<char>,
    w4: Seq<char>,
    close: char,
)
    requires
        plain_value(v, t),
        all_ws(w2),
        all_ws(w3),
        all_ws(w4),
        close == '}' || close == ',',
        has_at(s, j, quoted_key(k)),
        has_at(s, j + quoted_key(k).len(), w2),
        has_at(s, j + quoted_key(k).len() + w2.len(), seq![':']),
        has_at(s, j + quoted_key(k).len() + w2.len() + 1, w3),
        has_at(s, j + quoted_key(k).len() + w2.len() + 1 + w3.len(), json_text(v)),
        has_at(s, j + quoted_key(k).len() + w2.len() + 1 + w3.len() + json_text(v).len(), w4),
        has_at(s, j + quoted_key(k).len() + w2.len() + 1 + w3.len() + json_text(v).len() + w4.len(), seq![close]),
    ensures
        ({
            let f = j + quoted_key(k).len() + w2.len() + 1 + w3.len() + json_text(v).len() + w4.len();
            &&& close == '}' ==> parse_members(s, j, acc, t) == Ok::<(Entries, int), Option<Seq<char>>>(
                (crate::value::obj_insert(acc, k, v), f + 1),
            )
            &&& close == ',' ==> parse_members(s, j, acc, t) == parse_members(
                s,
                skip_ws(s, f + 1),
                crate::value::obj_insert(acc, k, v),
                t,
            )
        }),
{
    let tx = json_text(v);
    let p = j + quoted_key(k).len();
    let c = p + w2.len();
    let d = c + 1 + w3.len();
    let e = d + tx.len();
    let f = e + w4.len();
    assert(quoted_key(k) =~= seq!['"'] + (escape_body(k) + seq!['"']));
    crate::roundtrip::lemma_has_at_concat(s, j, seq!['"'], escape_body(k) + seq!['"']);
    lemma_json_first(v, t);
    lemma_has_at_index(s, j, seq!['"'], 0);
    lemma_has_at_index(s, c, seq![':'], 0);
    lemma_has_at_index(s, d, tx, 0);
    lemma_has_at_index(s, f, seq![close], 0);
    lemma_skip_exact(s, p, w2);
    lemma_skip_exact(s, c + 1, w3);
    lemma_skip_exact(s, e, w4);
    lemma_parse_escaped(s, j + 1, k);
    if w4.len() > 0 {
        lemma_has_at_index(s, e, w4, 0);
    }
    lemma_stop_boundary(s, e);
    lemma_parse_json(v, t, s, d);
}

/// An item `v w` at `i`, then `close`: a closing bracket ends the list
/// there; a comma goes on with the next item.
#[verifier::spinoff_prover]
proof fn lemma_item_then(s: Seq<char>, i: int, v: ValueModel, t: FloatTableModel, w: Seq<char>, close: char)
    requires
        plain_value(v, t),
        all_ws(w),
        close == ']' || close == ',',
        has_at(s, i, json_text(v)),
        has_at(s, i + json_text(v).len(), w),
        has_at(s, i + json_text(v).len() + w.len(), seq![close]),
    ensures
        ({
            let f = i + json_text(v).len() + w.len();
            &&& close == ']' ==> parse_items(s, i, t) == Ok::<(Seq<ValueModel>, int), Option<Seq<char>>>((seq![v], f + 1))
            &&& close == ',' ==> parse_items(s, i, t) == match parse_items(s, skip_ws(s, f + 1), t) {
                Ok((vs, e)) => Ok::<(Seq<ValueModel>, int), Option<Seq<char>>>((seq![v] + vs, e)),
                Err(m) => Err(m),
            }
        }),
{
    let e = i + json_text(v).len();
    let f = e + w.len();
    lemma_json_first(v, t);
    lemma_has_at_index(s, f, seq![close], 0);
    lemma_skip_exact(s, e, w);
    if w.len() > 0 {
        lemma_has_at_index(s, e, w, 0);
    }
    lemma_stop_boundary(s, e);
    lemma_parse_json(v, t, s, i);
}

/// An object of two members with whitespace `ws[0]` .. `ws[9]` around every
/// token: before and after each brace, before and after each colon, and
/// before and after the comma.
pub open spec fn spaced_object(
    k1: Seq<char>,
    t1: Seq<char>,
    k2: Seq<char>,
    t2: Seq<char>,
    ws: Seq<Seq<char>>,
) -> Seq<Seq<char>> {
    seq![
        ws[0], seq!['{'], ws[1], quoted_key(k1), ws[2], seq![':'], ws[3], t1, ws[4], seq![','],
        ws[5], quoted_key(k2), ws[6], seq![':'], ws[7], t2, ws[8], seq!['}'], ws[9],
    ]
}

/// A list of two items with whitespace `ws[0]` .. `ws[5]` around every
/// token: before and after each bracket, and before and after the comma.
pub open spec fn spaced_list(t1: Seq<char>, t2: Seq<char>, ws: Seq<Seq<char>>) -> Seq<Seq<char>> {
    seq![ws[0], seq!['['], ws[1], t1, ws[2], seq![','], ws[3], t2, ws[4], seq![']'], ws[5]]
}

/// Every text is JSON whitespace.
pub open spec fn all_json_space(ws: Seq<Seq<char>>) -> bool {
    forall|i: int| 0 <= i < ws.len() ==> json_space(#[trigger] ws[i])
}

/// Whitespace is insignificant between the tokens of an object: the text
/// of an object of two members with any JSON whitespace (spaces, tabs, line
/// feeds, carriage returns) before or after its braces, its colons and its
/// comma reads as that object.
#[verifier::spinoff_prover]
#[verifier::rlimit(40)]
pub proof fn law_object_whitespace(
    k1: Seq<char>,
    v1: ValueModel,
    k2: Seq<char>,
    v2: ValueModel,
    t: FloatTableModel,
    ws: Seq<Seq<char>>,
)
    requires
        plain_value(v1, t),
        plain_value(v2, t),
        k1 != k2,
        ws.len() == 10,
        all_json_space(ws),
    ensures
        parse_document(concat(spaced_object(k1, json_text(v1), k2, json_text(v2), ws)), t) == Ok::<
            (ValueModel, int),
            Option<Seq<char>>,
        >(
            (
                ValueModel::Object(seq![(k1, v1), (k2, v2)]),
                concat(spaced_object(k1, json_text(v1), k2, json_text(v2), ws)).len() as int,
            ),
        ),
{
    let ps = spaced_object(k1, json_text(v1), k2, json_text(v2), ws);
    let s = concat(ps);
    lemma_concat_parts(ps);
    assert forall|i: int| 0 <= i < 10 implies all_ws(#[trigger] ws[i]) by {
        lemma_json_space(ws[i]);
    }
    assert(has_at(s, offset(ps, 0), ps[0]));
    assert(has_at(s, offset(ps, 1), ps[1]));
    assert(has_at(s, offset(ps, 2), ps[2]));
    assert(has_at(s, offset(ps, 3), ps[3]));
    assert(has_at(s, offset(ps, 4), ps[4]));
    assert(has_at(s, offset(ps, 5), ps[5]));
    assert(has_at(s, offset(ps, 6), ps[6]));
    assert(has_at(s, offset(ps, 7), ps[7]));
    assert(has_at(s, offset(ps, 8), ps[8]));
    assert(has_at(s, offset(ps, 9), ps[9]));
    assert(has_at(s, offset(ps, 10), ps[10]));
    assert(has_at(s, offset(ps, 11), ps[11]));
    assert(has_at(s, offset(ps, 12), ps[12]));
    assert(has_at(s, offset(ps, 13), ps[13]));
    assert(has_at(s, offset(ps, 14), ps[14]));
    assert(has_at(s, offset(ps, 15), ps[15]));
    assert(has_at(s, offset(ps, 16), ps[16]));
    assert(has_at(s, offset(ps, 17), ps[17]));
    assert(has_at(s, offset(ps, 18), ps[18]));
    assert(offset(ps, 0) == 0) by {
        assert(ps.subrange(0, 0) =~= Seq::<Seq<char>>::empty());
    }
    assert(offset(ps, 19) == s.len());
    lemma_has_at_index(s, offset(ps, 1), seq!['{'], 0);
    lemma_has_at_index(s, offset(ps, 3), quoted_key(k1), 0);
    lemma_has_at_index(s, offset(ps, 11), quoted_key(k2), 0);
    lemma_skip_exact(s, 0, ws[0]);
    lemma_skip_exact(s, offset(ps, 2), ws[1]);
    lemma_skip_exact(s, offset(ps, 10), ws[5]);
    lemma_skip_exact(s, offset(ps, 18), ws[9]);
    lemma_member_then(s, offset(ps, 3), Seq::empty(), k1, v1, t, ws[2], ws[3], ws[4], ',');
    crate::value::lemma_obj_pos(Seq::<(Seq<char>, ValueModel)>::empty(), k1);
    let acc = crate::value::obj_insert(Seq::empty(), k1, v1);
    assert(acc =~= seq![(k1, v1)]);
    lemma_member_then(s, offset(ps, 11), acc, k2, v2, t, ws[6], ws[7], ws[8], '}');
    crate::value::lemma_obj_pos(acc, k2);
    assert(crate::value::obj_insert(acc, k2, v2) =~= seq![(k1, v1), (k2, v2)]);
    assert(parse_value(s, offset(ps, 1), t) == Ok::<(ValueModel, int), Option<Seq<char>>>(
        (ValueModel::Object(seq![(k1, v1), (k2, v2)]), offset(ps, 18)),
    ));
}

/// Whitespace is insignificant between the tokens of a list: the text of a
/// list of two items with any JSON whitespace (spaces, tabs, line feeds,
/// carriage returns) before or after its brackets and its comma reads as
/// that list.
#[verifier::spinoff_prover]
#[verifier::rlimit(40)]
pub proof fn law_list_whitespace(v1: ValueModel, v2: ValueModel, t: FloatTableModel, ws: Seq<Seq<char>>)
    requires
        plain_value(v1, t),
        plain_value(v2, t),
        ws.len() == 6,
        all_json_space(ws),
    ensures
        parse_document(concat(spaced_list(json_text(v1), json_text(v2), ws)), t) == Ok::<
            (ValueModel, int),
            Option<Seq<char>>,
        >((ValueModel::List(seq![v1, v2]), concat(spaced_list(json_text(v1), json_text(v2), ws)).len() as int)),
{
    let ps = spaced_list(json_text(v1), json_text(v2), ws);
    let s = concat(ps);
    lemma_concat_parts(ps);
    assert forall|i: int| 0 <= i < 6 implies all_ws(#[trigger] ws[i]) by {
        lemma_json_space(ws[i]);
    }
    assert(has_at(s, offset(ps, 0), ps[0]));
    assert(has_at(s, offset(ps, 1), ps[1]));
    assert(has_at(s, offset(ps, 2), ps[2]));
    assert(has_at(s, offset(ps, 3), ps[3]));
    assert(has_at(s, offset(ps, 4), ps[4]));
    assert(has_at(s, offset(ps, 5), ps[5]));
    assert(has_at(s, offset(ps, 6), ps[6]));
    assert(has_at(s, offset(ps, 7), ps[7]));
    assert(has_at(s, offset(ps, 8), ps[8]));
    assert(has_at(s, offset(ps, 9), ps[9]));
    assert(has_at(s, offset(ps, 10), ps[10]));
    assert(offset(ps, 0) == 0) by {
        assert(ps.subrange(0, 0) =~= Seq::<Seq<char>>::empty());
    }
    assert(offset(ps, 11) == s.len());
    lemma_json_first(v1, t);
    lemma_json_first(v2, t);
    lemma_has_at_index(s, offset(ps, 1), seq!['['], 0);
    lemma_has_at_index(s, offset(ps, 3), json_text(v1), 0);
    lemma_has_at_index(s, offset(ps, 7), json_text(v2), 0);
    lemma_skip_exact(s, 0, ws[0]);
    lemma_skip_exact(s, offset(ps, 2), ws[1]);
    lemma_skip_exact(s, offset(ps, 6), ws[3]);
    lemma_skip_exact(s, offset(ps, 10), ws[5]);
    lemma_item_then(s, offset(ps, 3), v1, t, ws[2], ',');
    lemma_item_then(s, offset(ps, 7), v2, t, ws[4], ']');
    assert(seq![v1] + seq![v2] =~= seq![v1, v2]);
    assert(parse_value(s, offset(ps, 1), t) == Ok::<(ValueModel, int), Option<Seq<char>>>(
        (ValueModel::List(seq![v1, v2]), offset(ps, 10)),
    ));
}

} // verus!
