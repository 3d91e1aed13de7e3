//! What reading a graph's JSON text gives back: the identifiers, the data
//! and the links of every node.
use vstd::prelude::*;
use crate::ids::{pow16, id_nibble, id_hex, id_text_spec, hex_seq_value, all_hex, hyphenated_digits, parse_hyphenated, parse_id_spec};
use crate::json::hex_char;
use crate::roundtrip::{
    plain, lemma_hex_char, plain_value, join, lemma_join_front, lemma_plain_escape, member_text, member_texts,
    entries_of, value_texts, all_ws, boundary, reads_as, starts_solid, lemma_has_at_concat,
    lemma_has_at_index, lemma_skip_exact, lemma_parse_items_layout, lemma_parse_members_layout, lemma_parse_json,
    lemma_json_first,
};
use crate::parse::{FloatTableModel, is_ws, is_hex, has_at, parse_value};
use crate::value::{ValueModel, Entries, keys_unique, obj_lookup};
use crate::json::{json_text, items_text, quoted, escape_body};
use crate::export::{quoted_id, ids_text, link_text, links_text, node_json, nodes_text, graph_text};
use crate::arrow::ArrowModel;
use crate::node::{NodeModel, node_wf, arrow_pos, lemma_arrow_pos};
use crate::graph::{GraphModel, lists_nodes, bidirectional, links_checked, nodes_wf, law_links_checked_bidirectional};
use crate::load::{json_nodes, LoadFault, nodes_from, node_from, links_from, link_entry, set_entry, neighbor_ids};

verus! {

// ---------------------------------------------------------------------------
// Identifiers
// ---------------------------------------------------------------------------

/// Powers of sixteen are positive.
proof fn lemma_pow16_pos(n: nat)
    ensures
        pow16(n) > 0,
    decreases n,
{
    if n > 0 {
        lemma_pow16_pos((n - 1) as nat);
    }
}

/// The first `k` hexadecimal digits of `id` denote `id` without its last
/// `32 - k` digits.
proof fn lemma_id_hex_prefix(id: u128, k: int)
    requires
        0 <= k <= 32,
    ensures
        hex_seq_value(id_hex(id).subrange(0, k)) == (id as int) / pow16((32 - k) as nat),
        all_hex(id_hex(id).subrange(0, k)),
    decreases k,
{
    let h = id_hex(id);
    if k == 0 {
        assert(pow16(32) == 0x1_0000_0000_0000_0000_0000_0000_0000_0000) by {
            reveal_with_fuel(pow16, 33);
        }
        assert(h.subrange(0, 0) =~= Seq::<char>::empty());
        assert((id as int) / pow16(32) == 0);
    } else {
        lemma_id_hex_prefix(id, k - 1);
        let p = pow16((32 - k) as nat);
        lemma_pow16_pos((32 - k) as nat);
        assert(pow16((32 - (k - 1)) as nat) == 16 * p);
        let y = (id as int) / p;
        let nib = id_nibble(id, k - 1);
        assert(nib == y % 16);
        assert(0 <= nib < 16);
        lemma_hex_char(nib);
        let pre = h.subrange(0, k);
        assert(pre.subrange(0, pre.len() - 1) =~= h.subrange(0, k - 1));
        assert(pre[pre.len() - 1] == hex_char(nib));
        vstd::arithmetic::div_mod::lemma_div_denominator(id as int, p, 16);
        assert(p * 16 == 16 * p);
        vstd::arithmetic::div_mod::lemma_fundamental_div_mod(y, 16);
        assert(hex_seq_value(pre) == (y / 16) * 16 + y % 16);
        assert forall|q: int| 0 <= q < pre.len() implies is_hex(#[trigger] pre[q]) by {
            if q < k - 1 {
                assert(pre[q] == h.subrange(0, k - 1)[q]);
            }
        }
    }
}

/// The hyphenated text of an identifier reads back as the identifier, and
/// holds only hexadecimal digits and hyphens.
pub proof fn law_id_text_parses(id: u128)
    ensures
        parse_id_spec(id_text_spec(id)) == Some(id),
        plain(id_text_spec(id)),
        id_text_spec(id).len() == 36,
{
    let h = id_hex(id);
    let s = id_text_spec(id);
    lemma_id_hex_prefix(id, 32);
    assert(h.subrange(0, 32) =~= h);
    assert(pow16(0) == 1);
    assert(s.len() == 36);
    assert(s[8] == '-' && s[13] == '-' && s[18] == '-' && s[23] == '-');
    assert(hyphenated_digits(s) =~= h);
    assert(parse_hyphenated(s) == Some(id));
    assert forall|k: int| 0 <= k < s.len() implies (#[trigger] s[k]) != '"' && s[k] != '\\' && (s[k] as u32) >= 0x20 by {
        if k != 8 && k != 13 && k != 18 && k != 23 {
            let q = if k < 8 { k } else if k < 13 { k - 1 } else if k < 18 { k - 2 } else if k < 23 { k - 3 } else { k - 4 };
            assert(s[k] == h[q]);
            assert(is_hex(h[q]));
        }
    }
}

// ---------------------------------------------------------------------------
// The values that the text of a graph stands for
// ---------------------------------------------------------------------------

/// The identifiers as JSON strings.
pub open spec fn id_values(ids: Seq<u128>) -> Seq<ValueModel> {
    Seq::new(ids.len(), |k: int| ValueModel::Text(id_text_spec(ids[k])))
}

/// One arrow with its identifiers, as the object the text of a node holds.
pub open spec fn link_value(a: ArrowModel, ids: Seq<u128>) -> ValueModel {
    ValueModel::Object(
        seq![
            ("label"@, ValueModel::Text(a.0)),
            ("reverse"@, ValueModel::Text(a.1)),
            ("neighbors"@, ValueModel::List(id_values(ids))),
        ],
    )
}

/// The arrows of a node, as objects.
pub open spec fn link_values(ls: Seq<(ArrowModel, Seq<u128>)>) -> Seq<ValueModel> {
    Seq::new(ls.len(), |k: int| link_value(ls[k].0, ls[k].1))
}

/// The list of quoted identifiers is the JSON list of their strings.
proof fn lemma_ids_text(ids: Seq<u128>)
    ensures
        ids_text(ids) == items_text(id_values(ids)),
    decreases ids.len(),
{
    if ids.len() > 0 {
        let last = ids.last();
        law_id_text_parses(last);
        lemma_plain_escape(id_text_spec(last));
        let vs = id_values(ids);
        assert(json_text(vs[vs.len() - 1]) == quoted_id(last));
        if ids.len() >= 2 {
            lemma_ids_text(ids.drop_last());
            assert(vs.subrange(0, vs.len() - 1) =~= id_values(ids.drop_last()));
        }
    }
}

/// The texts of the labels and keys of an arrow object.
proof fn lemma_link_literals()
    ensures
        "label"@ =~= seq!['l', 'a', 'b', 'e', 'l'],
        "reverse"@ =~= seq!['r', 'e', 'v', 'e', 'r', 's', 'e'],
        "neighbors"@ =~= seq!['n', 'e', 'i', 'g', 'h', 'b', 'o', 'r', 's'],
        "\": "@ =~= seq!['"', ':', ' '],
        ", "@ =~= seq![',', ' '],
        "{\"label\": \""@ =~= seq!['{', '"'] + "label"@ + seq!['"', ':', ' ', '"'],
        "\", \"reverse\": \""@ =~= seq!['"', ',', ' ', '"'] + "reverse"@ + seq!['"', ':', ' ', '"'],
        "\", \"neighbors\": ["@ =~= seq!['"', ',', ' ', '"'] + "neighbors"@ + seq!['"', ':', ' ', '['],
        "]}"@ =~= seq![']', '}'],
{
    reveal_strlit("label");
    reveal_strlit("reverse");
    reveal_strlit("neighbors");
    reveal_strlit("\": ");
    reveal_strlit(", ");
    reveal_strlit("{\"label\": \"");
    reveal_strlit("\", \"reverse\": \"");
    reveal_strlit("\", \"neighbors\": [");
    reveal_strlit("]}");
}

/// The keys that the text of a graph writes are their own escapes.
proof fn lemma_literal_keys()
    ensures
        escape_body("label"@) == "label"@,
        escape_body("reverse"@) == "reverse"@,
        escape_body("neighbors"@) == "neighbors"@,
        escape_body("data"@) == "data"@,
        escape_body("linked"@) == "linked"@,
{
    reveal_strlit("label");
    reveal_strlit("reverse");
    reveal_strlit("neighbors");
    reveal_strlit("data");
    reveal_strlit("linked");
    lemma_plain_escape("label"@);
    lemma_plain_escape("reverse"@);
    lemma_plain_escape("neighbors"@);
    lemma_plain_escape("data"@);
    lemma_plain_escape("linked"@);
}

/// The entries of the object of an arrow.
pub open spec fn link_entries(a: ArrowModel, ids: Seq<u128>) -> Entries {
    seq![
        ("label"@, ValueModel::Text(a.0)),
        ("reverse"@, ValueModel::Text(a.1)),
        ("neighbors"@, ValueModel::List(id_values(ids))),
    ]
}

/// The members of the object of an arrow, one after the other.
proof fn lemma_link_members(a: ArrowModel, ids: Seq<u128>)
    ensures
        crate::json::members_text(link_entries(a, ids)) == (seq!['"'] + "label"@ + "\": "@ + quoted(a.0)) + ", "@ + (
        seq!['"'] + "reverse"@ + "\": "@ + quoted(a.1)) + ", "@ + (seq!['"'] + "neighbors"@ + "\": "@ + json_text(
            ValueModel::List(id_values(ids)),
        )),
{
    lemma_literal_keys();
    let es = link_entries(a, ids);
    let e1 = es.subrange(0, 1);
    let e2 = es.subrange(0, 2);
    let m0 = seq!['"'] + "label"@ + "\": "@ + quoted(a.0);
    let m1 = seq!['"'] + "reverse"@ + "\": "@ + quoted(a.1);
    let m2 = seq!['"'] + "neighbors"@ + "\": "@ + json_text(ValueModel::List(id_values(ids)));
    assert(e1.len() == 1 && e1[0] == es[0]);
    assert(e2.len() == 2 && e2[1] == es[1] && e2[0] == es[0]);
    assert(e2.subrange(0, 1) =~= e1);
    assert(es.subrange(0, 2) =~= e2);
    assert(json_text(ValueModel::Text(a.0)) == quoted(a.0));
    assert(json_text(ValueModel::Text(a.1)) == quoted(a.1));
    assert(crate::json::members_text(e1) == m0);
    assert(crate::json::members_text(e2) == crate::json::members_text(e2.subrange(0, 1)) + ", "@ + seq!['"']
        + escape_body(e2[1].0) + "\": "@ + json_text(e2[1].1));
    assert(crate::json::members_text(e2) =~= m0 + ", "@ + m1);
    assert(crate::json::members_text(es) == crate::json::members_text(es.subrange(0, 2)) + ", "@ + seq!['"']
        + escape_body(es[2].0) + "\": "@ + json_text(es[2].1));
    assert(crate::json::members_text(es) =~= m0 + ", "@ + m1 + ", "@ + m2);
}

/// The text of an arrow is the JSON text of its object.
#[verifier::rlimit(40)]
proof fn lemma_link_text_eq(a: ArrowModel, ids: Seq<u128>)
    ensures
        link_text(a, ids) == json_text(link_value(a, ids)),
{
    lemma_link_literals();
    lemma_ids_text(ids);
    lemma_link_members(a, ids);
    assert(link_value(a, ids) == ValueModel::Object(link_entries(a, ids)));
    assert(link_text(a, ids) =~= json_text(link_value(a, ids)));
}

/// The object of an arrow is a plain value.
proof fn lemma_link_plain(a: ArrowModel, ids: Seq<u128>, t: FloatTableModel)
    ensures
        plain_value(link_value(a, ids), t),
{
    lemma_link_literals();
    let es = link_entries(a, ids);
    assert(keys_unique(es)) by {
        assert forall|i: int, j: int| 0 <= i < es.len() && 0 <= j < es.len() && i != j implies es[i].0 != es[j].0 by {
            assert(es[i].0.len() != es[j].0.len());
        }
    }
    assert forall|i: int| 0 <= i < es.len() implies plain_value(#[trigger] es[i].1, t) by {
        if i == 2 {
            let xs = id_values(ids);
            assert forall|k: int| 0 <= k < xs.len() implies plain_value(#[trigger] xs[k], t) by {}
        }
    }
}

/// The text of an arrow is the JSON text of its object.
pub proof fn lemma_link_text(a: ArrowModel, ids: Seq<u128>)
    ensures
        link_text(a, ids) == json_text(link_value(a, ids)),
{
    lemma_link_text_eq(a, ids);
}

// ---------------------------------------------------------------------------
// The layout of a node
// ---------------------------------------------------------------------------

/// `n` spaces.
pub open spec fn spaces(n: nat) -> Seq<char> {
    Seq::new(n, |k: int| ' ')
}

/// A new line indented by `n` spaces.
pub open spec fn indent(n: nat) -> Seq<char> {
    seq!['\n'] + spaces(n)
}

/// An indented new line is whitespace.
proof fn lemma_indent_ws(n: nat)
    ensures
        all_ws(indent(n)),
        indent(n).len() == n + 1,
{
    assert forall|k: int| 0 <= k < indent(n).len() implies is_ws(#[trigger] indent(n)[k]) by {
        if k > 0 {
            assert(indent(n)[k] == spaces(n)[k - 1]);
        }
    }
}

/// The list of a node's arrows as its text writes it.
pub open spec fn links_list_text(ls: Seq<(ArrowModel, Seq<u128>)>) -> Seq<char> {
    seq!['['] + indent(12) + links_text(ls) + indent(8) + seq![']']
}

/// The object of a node as its text writes it.
pub open spec fn node_obj_text(n: crate::node::NodeModel) -> Seq<char> {
    seq!['{'] + indent(8) + member_text("data"@, json_text(n.data)) + seq![','] + indent(8) + member_text(
        "linked"@,
        links_list_text(n.links),
    ) + indent(4) + seq!['}']
}

/// The object that the text of a node stands for.
pub open spec fn node_value(n: crate::node::NodeModel) -> ValueModel {
    ValueModel::Object(seq![("data"@, n.data), ("linked"@, ValueModel::List(link_values(n.links)))])
}

/// The arrows of a node are the texts of their objects, separated by a
/// comma and an indented new line.
proof fn lemma_links_join(ls: Seq<(ArrowModel, Seq<u128>)>)
    ensures
        links_text(ls) == join(value_texts(link_values(ls)), seq![','] + indent(12)),
    decreases ls.len(),
{
    reveal_strlit(",\n            ");
    if ls.len() > 0 {
        let last = ls.last();
        lemma_link_text(last.0, last.1);
        let ts = value_texts(link_values(ls));
        assert(ts.last() == link_text(last.0, last.1));
        if ls.len() >= 2 {
            let pre = ls.drop_last();
            lemma_links_join(pre);
            assert(ts.drop_last() =~= value_texts(link_values(pre)));
            assert(",\n            "@ =~= seq![','] + indent(12));
        }
    }
}

/// The list of a node's arrows reads as the list of their objects.
pub proof fn lemma_parse_links_list(ls: Seq<(ArrowModel, Seq<u128>)>, t: FloatTableModel, s: Seq<char>, i: int)
    requires
        has_at(s, i, links_list_text(ls)),
        boundary(s, i + links_list_text(ls).len()),
    ensures
        parse_value(s, i, t) == Ok::<(ValueModel, int), Option<Seq<char>>>(
            (ValueModel::List(link_values(ls)), i + links_list_text(ls).len()),
        ),
{
    lemma_indent_ws(12);
    lemma_indent_ws(8);
    let txt = links_list_text(ls);
    lemma_has_at_index(s, i, txt, 0);
    assert(txt =~= seq!['['] + (indent(12) + links_text(ls) + indent(8) + seq![']']));
    lemma_has_at_concat(s, i, seq!['['], indent(12) + links_text(ls) + indent(8) + seq![']']);
    if ls.len() == 0 {
        assert(links_text(ls) == Seq::<char>::empty());
        let w = indent(12) + indent(8);
        assert(all_ws(w)) by {
            assert forall|k: int| 0 <= k < w.len() implies is_ws(#[trigger] w[k]) by {
                if k < 13 {
                    assert(w[k] == indent(12)[k]);
                } else {
                    assert(w[k] == indent(8)[k - 13]);
                }
            }
        }
        assert(indent(12) + links_text(ls) + indent(8) + seq![']'] =~= w + seq![']']);
        lemma_has_at_concat(s, i + 1, w, seq![']']);
        lemma_has_at_index(s, i + 1 + w.len(), seq![']'], 0);
        lemma_skip_exact(s, i + 1, w);
        assert(link_values(ls) =~= Seq::<ValueModel>::empty());
    } else {
        let xs = link_values(ls);
        let ts = value_texts(xs);
        lemma_links_join(ls);
        assert(reads_as(ts, xs, t)) by {
            assert forall|k: int, s2: Seq<char>, i2: int|
                0 <= k < ts.len() && #[trigger] has_at(s2, i2, ts[k]) && boundary(s2, i2 + ts[k].len()) implies parse_value(
                s2,
                i2,
                t,
            ) == Ok::<(ValueModel, int), Option<Seq<char>>>((xs[k], i2 + ts[k].len())) by {
                lemma_link_plain(ls[k].0, ls[k].1, t);
                lemma_parse_json(xs[k], t, s2, i2);
            }
        }
        assert(starts_solid(ts)) by {
            assert forall|k: int| 0 <= k < ts.len() implies (#[trigger] ts[k]).len() > 0 && !is_ws(ts[k][0]) by {
                lemma_link_plain(ls[k].0, ls[k].1, t);
                lemma_json_first(xs[k], t);
            }
        }
        let body = join(ts, seq![','] + indent(12));
        assert(indent(12) + links_text(ls) + indent(8) + seq![']'] =~= indent(12) + (body + indent(8) + seq![']']));
        lemma_has_at_concat(s, i + 1, indent(12), body + indent(8) + seq![']']);
        assert(body[0] == ts[0][0]) by {
            if ts.len() >= 2 {
                lemma_join_front(ts, seq![','] + indent(12));
            }
        }
        lemma_link_text(ls[0].0, ls[0].1);
        assert(ts[0] == link_text(ls[0].0, ls[0].1));
        reveal_strlit("{\"label\": \"");
        assert(ts[0][0] == '{');
        lemma_has_at_index(s, i + 14, body + indent(8) + seq![']'], 0);
        lemma_skip_exact(s, i + 1, indent(12));
        lemma_parse_items_layout(s, i + 14, ts, xs, indent(12), indent(8), t);
    }
}

/// The object of a node reads as the object that its text stands for.
pub proof fn lemma_parse_node_obj(n: crate::node::NodeModel, t: FloatTableModel, s: Seq<char>, i: int)
    requires
        plain_value(n.data, t),
        has_at(s, i, node_obj_text(n)),
        boundary(s, i + node_obj_text(n).len()),
    ensures
        parse_value(s, i, t) == Ok::<(ValueModel, int), Option<Seq<char>>>((node_value(n), i + node_obj_text(n).len())),
{
    reveal_strlit("data");
    reveal_strlit("linked");
    lemma_indent_ws(8);
    lemma_indent_ws(4);
    let txt = node_obj_text(n);
    let keys = seq!["data"@, "linked"@];
    let ts = seq![json_text(n.data), links_list_text(n.links)];
    let vs = seq![n.data, ValueModel::List(link_values(n.links))];
    let mts = member_texts(keys, ts);
    assert(mts.drop_last() =~= seq![mts[0]]);
    assert(join(mts.drop_last(), seq![','] + indent(8)) == mts[0]);
    let body = join(mts, seq![','] + indent(8));
    assert(body == mts[0] + (seq![','] + indent(8)) + mts[1]);
    assert(txt =~= seq!['{'] + (indent(8) + (body + indent(4) + seq!['}'])));
    lemma_has_at_index(s, i, txt, 0);
    lemma_has_at_concat(s, i, seq!['{'], indent(8) + (body + indent(4) + seq!['}']));
    lemma_has_at_concat(s, i + 1, indent(8), body + indent(4) + seq!['}']);
    lemma_has_at_index(s, i + 10, body + indent(4) + seq!['}'], 0);
    lemma_skip_exact(s, i + 1, indent(8));
    assert(reads_as(ts, vs, t)) by {
        assert forall|k: int, s2: Seq<char>, i2: int|
            0 <= k < ts.len() && #[trigger] has_at(s2, i2, ts[k]) && boundary(s2, i2 + ts[k].len()) implies parse_value(
            s2,
            i2,
            t,
        ) == Ok::<(ValueModel, int), Option<Seq<char>>>((vs[k], i2 + ts[k].len())) by {
            if k == 0 {
                lemma_parse_json(n.data, t, s2, i2);
            } else {
                lemma_parse_links_list(n.links, t, s2, i2);
            }
        }
    }
    assert(starts_solid(ts)) by {
        lemma_json_first(n.data, t);
    }
    assert(keys_unique(Seq::<(Seq<char>, ValueModel)>::empty() + entries_of(keys, vs))) by {
        let es = Seq::<(Seq<char>, ValueModel)>::empty() + entries_of(keys, vs);
        assert(es[0].0.len() != es[1].0.len());
    }
    lemma_parse_members_layout(
        s,
        i + 10,
        keys,
        ts,
        vs,
        Seq::<(Seq<char>, ValueModel)>::empty(),
        indent(8),
        indent(4),
        t,
    );
    assert(Seq::<(Seq<char>, ValueModel)>::empty() + entries_of(keys, vs) =~= seq![
        ("data"@, n.data),
        ("linked"@, ValueModel::List(link_values(n.links))),
    ]);
}

// ---------------------------------------------------------------------------
// Reading the nodes back
// ---------------------------------------------------------------------------

/// The identifiers of a list without duplicates read back as that list.
proof fn lemma_neighbor_ids(ids: Seq<u128>)
    requires
        ids.no_duplicates(),
    ensures
        neighbor_ids(id_values(ids)) == ids,
    decreases ids.len(),
{
    if ids.len() > 0 {
        let pre = ids.drop_last();
        let l = ids.last();
        assert(pre.no_duplicates()) by {
            assert forall|i: int, j: int| 0 <= i < j < pre.len() implies pre[i] != pre[j] by {
                assert(pre[i] == ids[i] && pre[j] == ids[j]);
            }
        }
        lemma_neighbor_ids(pre);
        assert(id_values(ids).drop_last() =~= id_values(pre));
        law_id_text_parses(l);
        assert(!pre.contains(l)) by {
            if pre.contains(l) {
                let q = choose|q: int| 0 <= q < pre.len() && pre[q] == l;
                assert(ids[q] == ids[ids.len() - 1]);
            }
        }
        assert(pre.push(l) =~= ids);
    }
}

/// The object of an arrow whose identifiers have no duplicates reads back
/// as the arrow and its identifiers.
proof fn lemma_link_entry(a: ArrowModel, ids: Seq<u128>, name: Seq<char>)
    requires
        ids.no_duplicates(),
    ensures
        link_entry(link_value(a, ids), name) == Ok::<(ArrowModel, Seq<u128>), Seq<char>>((a, ids)),
{
    lemma_link_literals();
    let es = link_entries(a, ids);
    assert(es[0].0 != "reverse"@ && es[0].0 != "neighbors"@);
    assert(es.drop_first()[0] == es[1]);
    assert(es[1].0 != "neighbors"@);
    assert(es.drop_first().drop_first()[0] == es[2]);
    assert(obj_lookup(es, "label"@) == Some(ValueModel::Text(a.0)));
    assert(obj_lookup(es.drop_first(), "reverse"@) == Some(ValueModel::Text(a.1)));
    assert(obj_lookup(es, "reverse"@) == Some(ValueModel::Text(a.1)));
    assert(obj_lookup(es.drop_first().drop_first(), "neighbors"@) == Some(ValueModel::List(id_values(ids))));
    assert(obj_lookup(es.drop_first(), "neighbors"@) == Some(ValueModel::List(id_values(ids))));
    assert(obj_lookup(es, "neighbors"@) == Some(ValueModel::List(id_values(ids))));
    lemma_neighbor_ids(ids);
}

/// The arrows of a well-formed node read back as its links.
proof fn lemma_links_from(ls: Seq<(ArrowModel, Seq<u128>)>, name: Seq<char>)
    requires
        forall|i: int, j: int| 0 <= i < j < ls.len() ==> ls[i].0 != ls[j].0,
        forall|i: int| 0 <= i < ls.len() ==> (#[trigger] ls[i]).1.no_duplicates(),
    ensures
        links_from(link_values(ls), name) == Ok::<Seq<(ArrowModel, Seq<u128>)>, Seq<char>>(ls),
    decreases ls.len(),
{
    if ls.len() > 0 {
        let pre = ls.drop_last();
        let last = ls.last();
        assert forall|i: int, j: int| 0 <= i < j < pre.len() implies pre[i].0 != pre[j].0 by {
            assert(pre[i] == ls[i] && pre[j] == ls[j]);
        }
        assert forall|i: int| 0 <= i < pre.len() implies (#[trigger] pre[i]).1.no_duplicates() by {
            assert(pre[i] == ls[i]);
        }
        lemma_links_from(pre, name);
        assert(link_values(ls).drop_last() =~= link_values(pre));
        assert(ls[ls.len() - 1].1.no_duplicates());
        lemma_link_entry(last.0, last.1, name);
        lemma_arrow_pos(pre, last.0);
        if let Some(p) = arrow_pos(pre, last.0) {
            assert(pre[p] == ls[p]);
        }
        assert(set_entry(pre, last.0, last.1) == pre.push(last));
        assert(link_values(ls).last() == link_value(last.0, last.1));
        assert(pre.push(last) =~= ls);
    } else {
        assert(ls =~= Seq::<(ArrowModel, Seq<u128>)>::empty());
    }
}

/// The object of a node reads back as the node, given that its key is the
/// node's identifier.
proof fn lemma_node_from(k: u128, n: NodeModel)
    requires
        n.id == k,
        node_wf(n),
    ensures
        node_from(id_text_spec(k), node_value(n)) == Ok::<NodeModel, Seq<char>>(n),
{
    reveal_strlit("data");
    reveal_strlit("linked");
    law_id_text_parses(k);
    let es = seq![("data"@, n.data), ("linked"@, ValueModel::List(link_values(n.links)))];
    assert(obj_lookup(es, "data"@) == Some(n.data));
    assert("data"@.len() == 4 && "linked"@.len() == 6);
    assert(es[0].0 != "linked"@);
    assert(es.drop_first()[0] == es[1]);
    assert(obj_lookup(es.drop_first(), "linked"@) == Some(ValueModel::List(link_values(n.links))));
    assert(obj_lookup(es, "linked"@) == Some(ValueModel::List(link_values(n.links))));
    lemma_links_from(n.links, id_text_spec(k));
}

/// A graph whose text reads back as itself with the float table `t`: every
/// node is under its own identifier and well formed, its data reads back as
/// itself with `t`.
pub open spec fn portable(g: GraphModel, t: FloatTableModel) -> bool {
    forall|k: u128| #[trigger] g.contains_key(k) ==> g[k].id == k && node_wf(g[k]) && plain_value(g[k].data, t)
}

/// The keys of the members of a graph's text.
pub open spec fn id_texts(ks: Seq<u128>) -> Seq<Seq<char>> {
    Seq::new(ks.len(), |k: int| id_text_spec(ks[k]))
}

/// The objects of the nodes of a graph, in the order `ks`.
pub open spec fn node_values(g: GraphModel, ks: Seq<u128>) -> Seq<ValueModel> {
    Seq::new(ks.len(), |k: int| node_value(g[ks[k]]))
}

/// The texts of the objects of the nodes of a graph, in the order `ks`.
pub open spec fn node_obj_texts(g: GraphModel, ks: Seq<u128>) -> Seq<Seq<char>> {
    Seq::new(ks.len(), |k: int| node_obj_text(g[ks[k]]))
}

/// The members of a graph's text, read in order, give back its nodes.
proof fn lemma_nodes_from(g: GraphModel, ks: Seq<u128>)
    requires
        forall|k: u128| #[trigger] g.contains_key(k) ==> g[k].id == k && node_wf(g[k]),
        ks.no_duplicates(),
        forall|k: int| 0 <= k < ks.len() ==> g.contains_key(#[trigger] ks[k]),
    ensures
        nodes_from(entries_of(id_texts(ks), node_values(g, ks))) == Ok::<GraphModel, Seq<char>>(
            Map::new(|x: u128| ks.contains(x), |x: u128| g[x]),
        ),
    decreases ks.len(),
{
    let es = entries_of(id_texts(ks), node_values(g, ks));
    if ks.len() == 0 {
        assert(Map::new(|x: u128| ks.contains(x), |x: u128| g[x]) =~= Map::<u128, NodeModel>::empty());
    } else {
        let pre = ks.drop_last();
        let l = ks.last();
        assert(pre.no_duplicates()) by {
            assert forall|i: int, j: int| 0 <= i < j < pre.len() implies pre[i] != pre[j] by {
                assert(pre[i] == ks[i] && pre[j] == ks[j]);
            }
        }
        assert forall|k: int| 0 <= k < pre.len() implies g.contains_key(#[trigger] pre[k]) by {
            assert(pre[k] == ks[k]);
        }
        lemma_nodes_from(g, pre);
        assert(es.drop_last() =~= entries_of(id_texts(pre), node_values(g, pre)));
        assert(g.contains_key(ks[ks.len() - 1]));
        lemma_node_from(l, g[l]);
        assert(es.last() == (id_text_spec(l), node_value(g[l])));
        let m = Map::new(|x: u128| pre.contains(x), |x: u128| g[x]);
        assert(m.insert(l, g[l]) =~= Map::new(|x: u128| ks.contains(x), |x: u128| g[x])) by {
            assert forall|x: u128| #[trigger] ks.contains(x) <==> pre.contains(x) || x == l by {
                if ks.contains(x) {
                    let q = choose|q: int| 0 <= q < ks.len() && ks[q] == x;
                    if q < pre.len() {
                        assert(pre[q] == x);
                    }
                }
                if pre.contains(x) {
                    let q = choose|q: int| 0 <= q < pre.len() && pre[q] == x;
                    assert(ks[q] == x);
                }
                if x == l {
                    assert(ks[ks.len() - 1] == x);
                }
            }
        }
    }
}

// ---------------------------------------------------------------------------
// The layout of a graph
// ---------------------------------------------------------------------------

/// The text of a node is its member in the graph's object, indented by four
/// spaces.
#[verifier::rlimit(40)]
proof fn lemma_node_json(id: u128, n: NodeModel)
    ensures
        node_json(id, n) == spaces(4) + member_text(id_text_spec(id), node_obj_text(n)),
{
    reveal_strlit("    ");
    reveal_strlit(": {\n        \"data\": ");
    reveal_strlit(",\n        \"linked\": [\n            ");
    reveal_strlit("\n        ]\n    }");
    reveal_strlit("data");
    reveal_strlit("linked");
    lemma_literal_keys();
    law_id_text_parses(id);
    lemma_plain_escape(id_text_spec(id));
    assert("    "@ =~= spaces(4));
    assert(": {\n        \"data\": "@ =~= seq![':', ' ', '{'] + indent(8) + seq!['"'] + "data"@ + seq!['"', ':', ' ']);
    assert(",\n        \"linked\": [\n            "@ =~= seq![','] + indent(8) + seq!['"'] + "linked"@ + seq![
        '"',
        ':',
        ' ',
        '[',
    ] + indent(12));
    assert("\n        ]\n    }"@ =~= indent(8) + seq![']'] + indent(4) + seq!['}']);
    assert(node_json(id, n) =~= spaces(4) + member_text(id_text_spec(id), node_obj_text(n)));
}

/// Prefixing each text with `p` is prefixing the whole with `p` and each
/// separator's end with `p`.
proof fn lemma_join_prefix(ms: Seq<Seq<char>>, p: Seq<char>, sep: Seq<char>)
    requires
        ms.len() >= 1,
    ensures
        join(Seq::new(ms.len(), |k: int| p + ms[k]), sep) == p + join(ms, sep + p),
    decreases ms.len(),
{
    let pms = Seq::new(ms.len(), |k: int| p + ms[k]);
    if ms.len() == 1 {
        assert(join(pms, sep) == pms[0]);
    } else {
        lemma_join_prefix(ms.drop_last(), p, sep);
        assert(pms.drop_last() =~= Seq::new(ms.drop_last().len(), |k: int| p + ms.drop_last()[k]));
        assert(join(pms, sep) =~= p + join(ms, sep + p));
    }
}

/// The nodes of a graph's text are the texts of the nodes, separated by a
/// comma and a new line.
proof fn lemma_nodes_join(g: GraphModel, ks: Seq<u128>)
    ensures
        nodes_text(g, ks) == join(Seq::new(ks.len(), |k: int| node_json(ks[k], g[ks[k]])), ",\n"@),
    decreases ks.len(),
{
    if ks.len() >= 2 {
        lemma_nodes_join(g, ks.drop_last());
        assert(Seq::new(ks.len(), |k: int| node_json(ks[k], g[ks[k]])).drop_last() =~= Seq::new(
            ks.drop_last().len(),
            |k: int| node_json(ks.drop_last()[k], g[ks.drop_last()[k]]),
        ));
    }
}

/// The text of a graph with nodes: an object whose members are the nodes
/// under their identifiers, each on a new line indented by four spaces.
proof fn lemma_graph_layout(g: GraphModel, ks: Seq<u128>)
    requires
        ks.len() >= 1,
    ensures
        graph_text(g, ks) == seq!['{'] + indent(4) + join(member_texts(id_texts(ks), node_obj_texts(g, ks)), seq![','] + indent(4))
            + indent(0) + seq!['}'],
{
    reveal_strlit("{\n");
    reveal_strlit("\n}");
    reveal_strlit(",\n");
    let mts = member_texts(id_texts(ks), node_obj_texts(g, ks));
    assert forall|k: int| 0 <= k < ks.len() implies node_json(ks[k], g[ks[k]]) == spaces(4) + #[trigger] mts[k] by {
        lemma_node_json(ks[k], g[ks[k]]);
    }
    assert(Seq::new(ks.len(), |k: int| node_json(ks[k], g[ks[k]])) =~= Seq::new(mts.len(), |k: int| spaces(4) + mts[k]));
    lemma_nodes_join(g, ks);
    lemma_join_prefix(mts, spaces(4), ",\n"@);
    assert(",\n"@ + spaces(4) =~= seq![','] + indent(4));
    assert(graph_text(g, ks) =~= seq!['{'] + indent(4) + join(mts, seq![','] + indent(4)) + indent(0) + seq!['}']);
}

/// Each node's object text reads as its object.
proof fn lemma_node_reads(g: GraphModel, ks: Seq<u128>, t: FloatTableModel)
    requires
        portable(g, t),
        forall|k: int| 0 <= k < ks.len() ==> g.contains_key(#[trigger] ks[k]),
    ensures
        reads_as(node_obj_texts(g, ks), node_values(g, ks), t),
        starts_solid(node_obj_texts(g, ks)),
{
    let ts = node_obj_texts(g, ks);
    let vs = node_values(g, ks);
    assert forall|k: int, s2: Seq<char>, i2: int|
        0 <= k < ts.len() && #[trigger] has_at(s2, i2, ts[k]) && boundary(s2, i2 + ts[k].len()) implies parse_value(
        s2,
        i2,
        t,
    ) == Ok::<(ValueModel, int), Option<Seq<char>>>((vs[k], i2 + ts[k].len())) by {
        assert(g.contains_key(ks[k]));
        lemma_parse_node_obj(g[ks[k]], t, s2, i2);
    }
    assert forall|k: int| 0 <= k < ts.len() implies (#[trigger] ts[k]).len() > 0 && !is_ws(ts[k][0]) by {
        assert(ts[k] == node_obj_text(g[ks[k]]));
    }
}

/// The identifiers' texts are distinct keys.
proof fn lemma_id_keys(g: GraphModel, ks: Seq<u128>)
    requires
        ks.no_duplicates(),
    ensures
        keys_unique(Seq::<(Seq<char>, ValueModel)>::empty() + entries_of(id_texts(ks), node_values(g, ks))),
{
    let keys = id_texts(ks);
    let es = Seq::<(Seq<char>, ValueModel)>::empty() + entries_of(keys, node_values(g, ks));
    assert forall|i: int, j: int| 0 <= i < es.len() && 0 <= j < es.len() && i != j implies es[i].0 != es[j].0 by {
        law_id_text_parses(ks[i]);
        law_id_text_parses(ks[j]);
        assert(ks[i] != ks[j]);
    }
}

/// An object whose members are laid out with whitespace `first` after the
/// brace, a comma and whitespace `sep` between members, and whitespace
/// `end` before the closing brace reads as the object of its entries.
pub proof fn lemma_parse_object_layout(
    s: Seq<char>,
    i: int,
    keys: Seq<Seq<char>>,
    ts: Seq<Seq<char>>,
    vs: Seq<ValueModel>,
    first: Seq<char>,
    sep: Seq<char>,
    end: Seq<char>,
    t: FloatTableModel,
)
    requires
        keys.len() == ts.len() >= 1,
        reads_as(ts, vs, t),
        starts_solid(ts),
        keys_unique(Seq::<(Seq<char>, ValueModel)>::empty() + entries_of(keys, vs)),
        all_ws(first),
        all_ws(sep),
        all_ws(end),
        has_at(s, i, seq!['{'] + first + join(member_texts(keys, ts), seq![','] + sep) + end + seq!['}']),
    ensures
        parse_value(s, i, t) == Ok::<(ValueModel, int), Option<Seq<char>>>(
            (
                ValueModel::Object(entries_of(keys, vs)),
                i + (seq!['{'] + first + join(member_texts(keys, ts), seq![','] + sep) + end + seq!['}']).len(),
            ),
        ),
{
    let body = join(member_texts(keys, ts), seq![','] + sep);
    let txt = seq!['{'] + first + body + end + seq!['}'];
    assert(txt =~= seq!['{'] + (first + (body + end + seq!['}'])));
    lemma_has_at_concat(s, i, seq!['{'], first + (body + end + seq!['}']));
    lemma_has_at_index(s, i, seq!['{'], 0);
    lemma_has_at_concat(s, i + 1, first, body + end + seq!['}']);
    assert(body[0] == '"') by {
        let mts = member_texts(keys, ts);
        if mts.len() >= 2 {
            lemma_join_front(mts, seq![','] + sep);
        }
        assert(mts[0] == member_text(keys[0], ts[0]));
    }
    lemma_has_at_index(s, i + 1 + first.len(), body + end + seq!['}'], 0);
    lemma_skip_exact(s, i + 1, first);
    lemma_parse_members_layout(s, i + 1 + first.len(), keys, ts, vs, Seq::<(Seq<char>, ValueModel)>::empty(), sep, end, t);
    assert(Seq::<(Seq<char>, ValueModel)>::empty() + entries_of(keys, vs) =~= entries_of(keys, vs));
}

/// The text of a graph with nodes reads as the object of their members.
proof fn lemma_parse_graph_text(g: GraphModel, ks: Seq<u128>, t: FloatTableModel)
    requires
        ks.len() >= 1,
        ks.no_duplicates(),
        portable(g, t),
        forall|k: int| 0 <= k < ks.len() ==> g.contains_key(#[trigger] ks[k]),
    ensures
        parse_value(graph_text(g, ks), 0, t) == Ok::<(ValueModel, int), Option<Seq<char>>>(
            (ValueModel::Object(entries_of(id_texts(ks), node_values(g, ks))), graph_text(g, ks).len() as int),
        ),
{
    let s = graph_text(g, ks);
    let keys = id_texts(ks);
    let ts = node_obj_texts(g, ks);
    let vs = node_values(g, ks);
    lemma_graph_layout(g, ks);
    lemma_indent_ws(4);
    lemma_indent_ws(0);
    assert(has_at(s, 0, s)) by {
        assert(s.subrange(0, s.len() as int) =~= s);
    }
    lemma_node_reads(g, ks, t);
    lemma_id_keys(g, ks);
    lemma_parse_object_layout(s, 0, keys, ts, vs, indent(4), indent(4), indent(0), t);
}

/// Reading back the JSON text of a graph gives back its nodes: the text
/// that `to_json` writes for a graph (in any order of its nodes) stands for
/// exactly that graph, when every node is under its own identifier, well
/// formed, with data that reads back with the float table; and when
/// the graph is bidirectional its links pass the check that `from_json`
/// makes, so `from_json` gives the graph back.
pub proof fn law_graph_json_round_trip(g: GraphModel, ks: Seq<u128>, t: FloatTableModel)
    requires
        lists_nodes(g, ks),
        portable(g, t),
    ensures
        json_nodes(graph_text(g, ks), t) == Ok::<GraphModel, LoadFault>(g),
        bidirectional(g) ==> links_checked(g),
{
    assert(nodes_wf(g)) by {
        assert forall|k: u128| #[trigger] g.contains_key(k) implies node_wf(g[k]) by {}
    }
    law_links_checked_bidirectional(g);
    let s = graph_text(g, ks);
    assert forall|k: int| 0 <= k < ks.len() implies g.contains_key(#[trigger] ks[k]) by {
        assert(ks.contains(ks[k]));
    }
    lemma_nodes_from(g, ks);
    assert(Map::new(|x: u128| ks.contains(x), |x: u128| g[x]) =~= g);
    reveal_strlit("{\n");
    reveal_strlit("\n}");
    assert(s =~= "{\n"@ + nodes_text(g, ks) + "\n}"@);
    assert(s.len() >= 4 && s[0] == '{' && s[s.len() - 1] == '}');
    assert(seq!['{'] + s.subrange(1, s.len() - 1) + seq!['}'] =~= s);
    if ks.len() == 0 {
        assert(nodes_text(g, ks) == Seq::<char>::empty());
        assert(s =~= seq!['{', '\n', '\n', '}']);
        assert(has_at(s, 1, seq!['\n', '\n'])) by {
            assert(s.subrange(1, 3) =~= seq!['\n', '\n']);
        }
        lemma_skip_exact(s, 1, seq!['\n', '\n']);
        assert(parse_value(s, 0, t) == Ok::<(ValueModel, int), Option<Seq<char>>>((ValueModel::Object(Seq::empty()), 4)));
        assert(entries_of(id_texts(ks), node_values(g, ks)) =~= Seq::<(Seq<char>, ValueModel)>::empty());
    } else {
        lemma_parse_graph_text(g, ks, t);
    }
}

} // verus!
