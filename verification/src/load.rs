//! Reading a graph back from its JSON text: one member per node, keyed by
//! the node's identifier, each an object with its `data` and its `linked`
//! arrows.
use vstd::prelude::*;
use vstd::string::StringExecFns;
use vstd::pervasive::VecAdditionalExecFns;
use std::collections::HashMap;
use crate::arrow::{Arrow, ArrowModel};
use crate::node::{Node, NodeModel, node_wf, arrow_pos, links_model, lemma_arrow_pos, lemma_arrow_pos_at, lemma_node_view};
use crate::value::{Value, ValueModel, Entries, obj_lookup, entries_model, lemma_object_model, lemma_list_model, copy_value};
use crate::parse::{FloatTable, FloatTableModel, parse_collection_spec, parse_braced_exec, parse_error, parse_error_value, values_model};
use crate::ids::{parse_id, parse_id_spec, id_error_text};
use crate::graph::{Graph, GraphModel, nodes_model, nodes_wf, graph_wf, links_checked, is_link_error, law_links_checked_bidirectional};
use crate::text::chars_of;
use crate::error::DeebeeError;

verus! {

broadcast use vstd::std_specs::hash::group_hash_axioms;

// ---------------------------------------------------------------------------
// What a text denotes
// ---------------------------------------------------------------------------

/// The links with the entry for arrow `a` set to `ids`: replaced where the
/// arrow has an entry, appended otherwise.
pub open spec fn set_entry(ls: Seq<(ArrowModel, Seq<u128>)>, a: ArrowModel, ids: Seq<u128>) -> Seq<(ArrowModel, Seq<u128>)> {
    match arrow_pos(ls, a) {
        Some(p) => ls.update(p, (a, ids)),
        None => ls.push((a, ids)),
    }
}

/// The identifiers read from a list of neighbours: the texts that are
/// UUIDs, each identifier once, in order of first occurrence; other items
/// are skipped.
pub open spec fn neighbor_ids(xs: Seq<ValueModel>) -> Seq<u128>
    decreases xs.len(),
{
    if xs.len() == 0 {
        Seq::empty()
    } else {
        let rest = neighbor_ids(xs.drop_last());
        match xs.last() {
            ValueModel::Text(s) => match parse_id_spec(s) {
                Some(id) => if rest.contains(id) { rest } else { rest.push(id) },
                None => rest,
            },
            _ => rest,
        }
    }
}

/// A message about the node written under `name`.
pub open spec fn node_text(prefix: Seq<char>, name: Seq<char>, suffix: Seq<char>) -> Seq<char> {
    prefix + name + suffix
}

/// The arrow and identifiers that one item of a node's `linked` list
/// denotes, or the message of the error it causes.
pub open spec fn link_entry(v: ValueModel, name: Seq<char>) -> Result<(ArrowModel, Seq<u128>), Seq<char>> {
    match v {
        ValueModel::Object(es) => match obj_lookup(es, "label"@) {
            None => Err(node_text("Node "@, name, "'s linked nodes does not have a label."@)),
            Some(ValueModel::Text(label)) => match obj_lookup(es, "reverse"@) {
                None => Err(node_text("Node "@, name, "'s linked nodes does not have a reverse label."@)),
                Some(ValueModel::Text(rev)) => match obj_lookup(es, "neighbors"@) {
                    None => Ok(((label, rev), Seq::empty())),
                    Some(ValueModel::List(xs)) => Ok(((label, rev), neighbor_ids(xs))),
                    Some(_) => Err(node_text("Node "@, name, "'s linked nodes is not an array."@)),
                },
                Some(_) => Err(node_text("One of node "@, name, "'s arrow reverse labels is not text."@)),
            },
            Some(_) => Err(node_text("One of node "@, name, "'s arrow labels is not text."@)),
        },
        _ => Err(node_text("One of node "@, name, "'s links is not a map."@)),
    }
}

/// The links that a node's `linked` list denotes, items read in order (a
/// later item for the same arrow replaces the earlier one), or the message
/// of the first error.
pub open spec fn links_from(xs: Seq<ValueModel>, name: Seq<char>) -> Result<Seq<(ArrowModel, Seq<u128>)>, Seq<char>>
    decreases xs.len(),
{
    if xs.len() == 0 {
        Ok(Seq::empty())
    } else {
        match links_from(xs.drop_last(), name) {
            Err(m) => Err(m),
            Ok(ls) => match link_entry(xs.last(), name) {
                Err(m) => Err(m),
                Ok((a, ids)) => Ok(set_entry(ls, a, ids)),
            },
        }
    }
}

/// The node that the member `name: v` denotes, or the message of the
/// error it causes.
pub open spec fn node_from(name: Seq<char>, v: ValueModel) -> Result<NodeModel, Seq<char>> {
    match parse_id_spec(name) {
        None => Err(id_error_text(name)),
        Some(id) => match v {
            ValueModel::Object(es) => match obj_lookup(es, "data"@) {
                None => Err(name + " does not have data."@),
                Some(d) => match obj_lookup(es, "linked"@) {
                    None => Ok(NodeModel { id, data: d, links: Seq::empty() }),
                    Some(ValueModel::List(xs)) => match links_from(xs, name) {
                        Ok(ls) => Ok(NodeModel { id, data: d, links: ls }),
                        Err(m) => Err(m),
                    },
                    Some(_) => Err(node_text("Node "@, name, "'s linked nodes is not an array."@)),
                },
            },
            _ => Err(node_text("Node "@, name, " data is not a JSON object (aka dictionary/HashMap)."@)),
        },
    }
}

/// The nodes that the members denote, read in order (a later node with the
/// same identifier replaces the earlier one), or the message of the first
/// error.
pub open spec fn nodes_from(es: Entries) -> Result<GraphModel, Seq<char>>
    decreases es.len(),
{
    if es.len() == 0 {
        Ok(Map::empty())
    } else {
        match nodes_from(es.drop_last()) {
            Err(m) => Err(m),
            Ok(g) => match node_from(es.last().0, es.last().1) {
                Err(m) => Err(m),
                Ok(n) => Ok(g.insert(n.id, n)),
            },
        }
    }
}

/// Why a text does not denote a map of nodes.
pub enum LoadFault {
    /// The text does not start with `{` and end with `}`.
    NotObject,
    /// The text is not a JSON object (with the reader's own message).
    Syntax(Option<Seq<char>>),
    /// A member does not denote a node (with the message).
    Creation(Seq<char>),
}

/// The nodes that a JSON text denotes, before their links are checked.
pub open spec fn json_nodes(s: Seq<char>, t: FloatTableModel) -> Result<GraphModel, LoadFault> {
    if s.len() >= 2 && s[0] == '{' && s[s.len() - 1] == '}' {
        match parse_collection_spec(s.subrange(1, s.len() - 1), t) {
            Err(m) => Err(LoadFault::Syntax(m)),
            Ok((es, _)) => match nodes_from(es) {
                Ok(g) => Ok(g),
                Err(m) => Err(LoadFault::Creation(m)),
            },
        }
    } else {
        Err(LoadFault::NotObject)
    }
}

/// The error returned for a fault.
pub open spec fn load_error(f: LoadFault, e: DeebeeError) -> bool {
    match f {
        LoadFault::NotObject => e matches DeebeeError::InvalidJson(m) && m@ == "JSON not an object at top-level."@,
        LoadFault::Syntax(m) => parse_error(m, e),
        LoadFault::Creation(msg) => e matches DeebeeError::InvalidCreation(m) && m@ == msg,
    }
}

/// Once the links read from a prefix of the list fail, the whole list
/// fails with the same message.
proof fn lemma_links_err_persists(xs: Seq<ValueModel>, name: Seq<char>, k: int)
    requires
        0 <= k <= xs.len(),
        links_from(xs.subrange(0, k), name) is Err,
    ensures
        links_from(xs, name) == links_from(xs.subrange(0, k), name),
    decreases xs.len() - k,
{
    if k < xs.len() {
        let ys = xs.subrange(0, k + 1);
        assert(ys.drop_last() =~= xs.subrange(0, k));
        lemma_links_err_persists(xs, name, k + 1);
    } else {
        assert(xs.subrange(0, k) =~= xs);
    }
}

/// Once the nodes read from a prefix of the members fail, all the members
/// fail with the same message.
proof fn lemma_nodes_err_persists(es: Entries, k: int)
    requires
        0 <= k <= es.len(),
        nodes_from(es.subrange(0, k)) is Err,
    ensures
        nodes_from(es) == nodes_from(es.subrange(0, k)),
    decreases es.len() - k,
{
    if k < es.len() {
        let fs = es.subrange(0, k + 1);
        assert(fs.drop_last() =~= es.subrange(0, k));
        lemma_nodes_err_persists(es, k + 1);
    } else {
        assert(es.subrange(0, k) =~= es);
    }
}

/// The identifiers read from a list of neighbours are distinct.
proof fn lemma_neighbor_ids_unique(xs: Seq<ValueModel>)
    ensures
        neighbor_ids(xs).no_duplicates(),
    decreases xs.len(),
{
    if xs.len() > 0 {
        lemma_neighbor_ids_unique(xs.drop_last());
        let rest = neighbor_ids(xs.drop_last());
        if let ValueModel::Text(s) = xs.last() {
            if let Some(id) = parse_id_spec(s) {
                if !rest.contains(id) {
                    let r = rest.push(id);
                    assert forall|i: int, j: int| 0 <= i < j < r.len() implies r[i] != r[j] by {
                        if j == rest.len() {
                            assert(rest[i] == r[i]);
                        }
                    }
                }
            }
        }
    }
}

/// Links whose arrows are distinct and whose identifiers are distinct
/// under each arrow.
pub open spec fn links_wf(ls: Seq<(ArrowModel, Seq<u128>)>) -> bool {
    &&& forall|i: int, j: int| 0 <= i < j < ls.len() ==> ls[i].0 != ls[j].0
    &&& forall|i: int| 0 <= i < ls.len() ==> (#[trigger] ls[i]).1.no_duplicates()
}

/// The links read from a node's `linked` list are well formed.
proof fn lemma_links_from_wf(xs: Seq<ValueModel>, name: Seq<char>)
    ensures
        links_from(xs, name) is Ok ==> links_wf(links_from(xs, name)->Ok_0),
    decreases xs.len(),
{
    if xs.len() > 0 {
        lemma_links_from_wf(xs.drop_last(), name);
        if let Ok(ls) = links_from(xs.drop_last(), name) {
            if let Ok((a, ids)) = link_entry(xs.last(), name) {
                assert(ids.no_duplicates()) by {
                    if let ValueModel::Object(es) = xs.last() {
                        if let Some(ValueModel::List(ys)) = obj_lookup(es, "neighbors"@) {
                            lemma_neighbor_ids_unique(ys);
                        }
                    }
                }
                lemma_arrow_pos(ls, a);
                let r = set_entry(ls, a, ids);
                match arrow_pos(ls, a) {
                    Some(p) => {
                        assert forall|i: int, j: int| 0 <= i < j < r.len() implies r[i].0 != r[j].0 by {
                            assert(r[i].0 == ls[i].0 && r[j].0 == ls[j].0);
                        }
                        assert forall|i: int| 0 <= i < r.len() implies (#[trigger] r[i]).1.no_duplicates() by {
                            if i != p {
                                assert(r[i] == ls[i]);
                            }
                        }
                    },
                    None => {
                        assert forall|i: int, j: int| 0 <= i < j < r.len() implies r[i].0 != r[j].0 by {
                            assert(r[i] == ls[i]);
                            if j < ls.len() {
                                assert(r[j] == ls[j]);
                            }
                        }
                        assert forall|i: int| 0 <= i < r.len() implies (#[trigger] r[i]).1.no_duplicates() by {
                            if i < ls.len() {
                                assert(r[i] == ls[i]);
                            }
                        }
                    },
                }
            }
        }
    }
}

/// Every node read from the members is well formed and sits under its own
/// identifier.
pub proof fn law_loaded_nodes_wf(es: Entries)
    ensures
        nodes_from(es) is Ok ==> nodes_wf(nodes_from(es)->Ok_0) && forall|k: u128| #[trigger]
            nodes_from(es)->Ok_0.contains_key(k) ==> nodes_from(es)->Ok_0[k].id == k,
    decreases es.len(),
{
    if es.len() > 0 {
        law_loaded_nodes_wf(es.drop_last());
        if let Ok(g) = nodes_from(es.drop_last()) {
            if let Ok(n) = node_from(es.last().0, es.last().1) {
                assert(node_wf(n)) by {
                    if let ValueModel::Object(os) = es.last().1 {
                        if let Some(ValueModel::List(xs)) = obj_lookup(os, "linked"@) {
                            lemma_links_from_wf(xs, es.last().0);
                        }
                    }
                }
                let g2 = g.insert(n.id, n);
                assert forall|k: u128| #[trigger] g2.contains_key(k) implies node_wf(g2[k]) && g2[k].id == k by {
                    if k != n.id {
                        assert(g.contains_key(k));
                    }
                }
            }
        }
    }
}

// ---------------------------------------------------------------------------
// Reading
// ---------------------------------------------------------------------------

/// `prefix`, `name` and `suffix`, one after the other.
fn node_message(prefix: &str, name: &str, suffix: &str) -> (r: String)
    ensures
        r@ == node_text(prefix@, name@, suffix@),
{
    let mut m = String::from_str(prefix);
    m.append(name);
    m.append(suffix);
    m
}

/// Returns `true` if `x` is among `v`.
fn vec_contains(v: &Vec<u128>, x: u128) -> (r: bool)
    ensures
        r == v@.contains(x),
{
    let n = v.len();
    let mut i: usize = 0;
    while i < n
        invariant
            n == v@.len(),
            0 <= i <= n,
            forall|j: int| 0 <= j < i ==> v@[j] != x,
        decreases n - i,
    {
        if v[i] == x {
            assert(v@[i as int] == x);
            return true;
        }
        i = i + 1;
    }
    false
}

/// The identifiers read from a list of neighbours.
fn neighbor_list(xs: &Vec<Value>) -> (r: Vec<u128>)
    ensures
        r@ == neighbor_ids(values_model(xs@)),
{
    let mut r: Vec<u128> = Vec::new();
    let n = xs.len();
    let mut i: usize = 0;
    while i < n
        invariant
            n == xs@.len(),
            0 <= i <= n,
            r@ == neighbor_ids(values_model(xs@.subrange(0, i as int))),
        decreases n - i,
    {
        let ghost vs = values_model(xs@.subrange(0, i + 1));
        proof {
            assert(vs.drop_last() =~= values_model(xs@.subrange(0, i as int)));
            assert(vs.last() == xs@[i as int]@);
        }
        match &xs[i] {
            Value::Text(s) => match parse_id(s.as_str()) {
                Ok(id) => {
                    if !vec_contains(&r, id) {
                        r.push(id);
                    }
                },
                Err(_) => {},
            },
            _ => {},
        }
        i = i + 1;
    }
    assert(xs@.subrange(0, n as int) =~= xs@);
    r
}

/// The arrow and identifiers of one item of a node's `linked` list.
fn link_entry_exec(v: &Value, name: &str) -> (r: Result<(Arrow, Vec<u128>), String>)
    ensures
        match r {
            Ok((a, ids)) => link_entry(v@, name@) == Ok::<(ArrowModel, Seq<u128>), Seq<char>>((a@, ids@)),
            Err(m) => link_entry(v@, name@) == Err::<(ArrowModel, Seq<u128>), Seq<char>>(m@),
        },
{
    match v {
        Value::Object(o) => {
            proof {
                lemma_object_model(*o);
            }
            let label = match o.get("label") {
                None => {
                    return Err(node_message("Node ", name, "'s linked nodes does not have a label."));
                },
                Some(Value::Text(l)) => l,
                Some(_) => {
                    return Err(node_message("One of node ", name, "'s arrow labels is not text."));
                },
            };
            let rev = match o.get("reverse") {
                None => {
                    return Err(node_message("Node ", name, "'s linked nodes does not have a reverse label."));
                },
                Some(Value::Text(l)) => l,
                Some(_) => {
                    return Err(node_message("One of node ", name, "'s arrow reverse labels is not text."));
                },
            };
            let ids = match o.get("neighbors") {
                None => Vec::new(),
                Some(Value::List(xs)) => {
                    proof {
                        lemma_list_model(*xs);
                        assert(values_model(xs@) =~= Seq::new(xs@.len(), |i: int| xs@[i]@));
                    }
                    neighbor_list(xs)
                },
                Some(_) => {
                    return Err(node_message("Node ", name, "'s linked nodes is not an array."));
                },
            };
            let a = Arrow::new(label.as_str(), rev.as_str());
            Ok((a, ids))
        },
        _ => Err(node_message("One of node ", name, "'s links is not a map.")),
    }
}

/// Sets the entry for arrow `a` to `ids`.
fn set_entry_exec(ls: &mut Vec<(Arrow, Vec<u128>)>, a: Arrow, ids: Vec<u128>)
    ensures
        links_model(final(ls)@) == set_entry(links_model(old(ls)@), a@, ids@),
{
    let ghost lm = links_model(ls@);
    proof {
        lemma_arrow_pos(lm, a@);
    }
    let n = ls.len();
    let mut i: usize = 0;
    while i < n
        invariant
            n == ls@.len(),
            lm == links_model(ls@),
            ls@ == old(ls)@,
            0 <= i <= n,
            forall|j: int| 0 <= j < i ==> lm[j].0 != a@,
        decreases n - i,
    {
        if ls[i].0.same(&a) {
            proof {
                lemma_arrow_pos_at(lm, i as int);
            }
            ls.set(i, (a, ids));
            assert(links_model(ls@) =~= lm.update(i as int, (a@, ids@)));
            return;
        }
        i = i + 1;
    }
    ls.push((a, ids));
    assert(links_model(ls@) =~= lm.push((a@, ids@)));
}

/// The links of a node's `linked` list.
fn links_exec(xs: &Vec<Value>, name: &str) -> (r: Result<Vec<(Arrow, Vec<u128>)>, String>)
    ensures
        match r {
            Ok(ls) => links_from(values_model(xs@), name@) == Ok::<Seq<(ArrowModel, Seq<u128>)>, Seq<char>>(
                links_model(ls@),
            ),
            Err(m) => links_from(values_model(xs@), name@) == Err::<Seq<(ArrowModel, Seq<u128>)>, Seq<char>>(m@),
        },
{
    let mut ls: Vec<(Arrow, Vec<u128>)> = Vec::new();
    let n = xs.len();
    let mut i: usize = 0;
    assert(links_model(ls@) =~= Seq::<(ArrowModel, Seq<u128>)>::empty());
    assert(values_model(xs@.subrange(0, 0)) =~= Seq::<ValueModel>::empty());
    while i < n
        invariant
            n == xs@.len(),
            0 <= i <= n,
            links_from(values_model(xs@.subrange(0, i as int)), name@) == Ok::<Seq<(ArrowModel, Seq<u128>)>, Seq<char>>(
                links_model(ls@),
            ),
        decreases n - i,
    {
        let ghost vs = values_model(xs@.subrange(0, i + 1));
        proof {
            assert(vs.drop_last() =~= values_model(xs@.subrange(0, i as int)));
            assert(vs.last() == xs@[i as int]@);
            assert(values_model(xs@).subrange(0, i + 1) =~= vs);
        }
        match link_entry_exec(&xs[i], name) {
            Ok((a, ids)) => {
                set_entry_exec(&mut ls, a, ids);
            },
            Err(m) => {
                proof {
                    lemma_links_err_persists(values_model(xs@), name@, i + 1);
                }
                return Err(m);
            },
        }
        i = i + 1;
    }
    assert(xs@.subrange(0, n as int) =~= xs@);
    Ok(ls)
}

/// The node of the member `name: v`.
fn node_exec(name: &String, v: &Value) -> (r: Result<Node, String>)
    ensures
        match r {
            Ok(n) => node_from(name@, v@) == Ok::<NodeModel, Seq<char>>(n@),
            Err(m) => node_from(name@, v@) == Err::<NodeModel, Seq<char>>(m@),
        },
{
    let id = match parse_id(name.as_str()) {
        Ok(id) => id,
        Err(m) => {
            return Err(m);
        },
    };
    match v {
        Value::Object(o) => {
            proof {
                lemma_object_model(*o);
            }
            let data = match o.get("data") {
                None => {
                    let mut m = name.clone();
                    m.append(" does not have data.");
                    return Err(m);
                },
                Some(d) => copy_value(d),
            };
            let linked = match o.get("linked") {
                None => {
                    let e: Vec<(Arrow, Vec<u128>)> = Vec::new();
                    assert(links_model(e@) =~= Seq::<(ArrowModel, Seq<u128>)>::empty());
                    e
                },
                Some(Value::List(xs)) => {
                    proof {
                        lemma_list_model(*xs);
                        assert(values_model(xs@) =~= Seq::new(xs@.len(), |i: int| xs@[i]@));
                    }
                    match links_exec(xs, name.as_str()) {
                        Ok(ls) => ls,
                        Err(m) => {
                            return Err(m);
                        },
                    }
                },
                Some(_) => {
                    return Err(node_message("Node ", name.as_str(), "'s linked nodes is not an array."));
                },
            };
            let n = Node { id, data, linked };
            proof {
                lemma_node_view(&n);
            }
            Ok(n)
        },
        _ => Err(node_message("Node ", name.as_str(), " data is not a JSON object (aka dictionary/HashMap).")),
    }
}

/// The nodes of the members, by identifier.
fn nodes_exec(es: &Vec<(String, Value)>) -> (r: Result<HashMap<u128, Node>, String>)
    ensures
        match r {
            Ok(m) => nodes_from(entries_model(es@)) == Ok::<GraphModel, Seq<char>>(nodes_model(m@)),
            Err(msg) => nodes_from(entries_model(es@)) == Err::<GraphModel, Seq<char>>(msg@),
        },
{
    let mut m: HashMap<u128, Node> = HashMap::new();
    let n = es.len();
    let mut i: usize = 0;
    assert(nodes_model(m@) =~= Map::<u128, NodeModel>::empty());
    assert(entries_model(es@.subrange(0, 0)) =~= Seq::<(Seq<char>, ValueModel)>::empty());
    while i < n
        invariant
            n == es@.len(),
            0 <= i <= n,
            nodes_from(entries_model(es@.subrange(0, i as int))) == Ok::<GraphModel, Seq<char>>(nodes_model(m@)),
        decreases n - i,
    {
        let ghost fs = entries_model(es@.subrange(0, i + 1));
        proof {
            assert(fs.drop_last() =~= entries_model(es@.subrange(0, i as int)));
            assert(fs.last() == (es@[i as int].0@, es@[i as int].1@));
            assert(entries_model(es@).subrange(0, i + 1) =~= fs);
        }
        match node_exec(&es[i].0, &es[i].1) {
            Ok(node) => {
                proof {
                    lemma_node_view(&node);
                }
                let ghost before = nodes_model(m@);
                let ghost nm = node@;
                m.insert(node.id, node);
                assert(nodes_model(m@) =~= before.insert(nm.id, nm));
            },
            Err(msg) => {
                proof {
                    lemma_nodes_err_persists(entries_model(es@), i + 1);
                }
                return Err(msg);
            },
        }
        i = i + 1;
    }
    assert(es@.subrange(0, n as int) =~= es@);
    Ok(m)
}

impl Graph {
    /// Reads a graph from its JSON text, decoding number literals that are
    /// not 64-bit integers with the float table. The text must be an object
    /// whose members are the nodes, each under its identifier, with its
    /// `data` and its optional `linked` list of arrows; the links are then
    /// checked as `from_map` checks them. A graph read this way is well
    /// formed and has each node under its own identifier.
    pub fn from_json_with(data: &str, floats: &FloatTable) -> (r: Result<Graph, DeebeeError>)
        ensures
            match r {
                Ok(g) => json_nodes(data@, floats@) == Ok::<GraphModel, LoadFault>(g@) && links_checked(g@) && graph_wf(
                    g@,
                ) && forall|k: u128| #[trigger] g@.contains_key(k) ==> g@[k].id == k,
                Err(e) => match json_nodes(data@, floats@) {
                    Ok(gm) => !links_checked(gm) && is_link_error(gm, e),
                    Err(f) => load_error(f, e),
                },
            },
    {
        let s = chars_of(data);
        let n = s.len();
        if n < 2 || s[0] != '{' || s[n - 1] != '}' {
            return Err(DeebeeError::InvalidJson(String::from_str("JSON not an object at top-level.")));
        }
        proof {
            assert(seq!['{'] + data@.subrange(1, n - 1) + seq!['}'] =~= data@);
        }
        match parse_braced_exec(&s, floats) {
            Err(m) => Err(parse_error_value(m)),
            Ok(obj) => match nodes_exec(obj.pairs()) {
                Err(msg) => Err(DeebeeError::InvalidCreation(msg)),
                Ok(map) => {
                    proof {
                        law_loaded_nodes_wf(obj@);
                        law_links_checked_bidirectional(nodes_model(map@));
                    }
                    Graph::from_map(map)
                },
            },
        }
    }

    /// Reads a graph from its JSON text; with no float table, only number
    /// literals that are 64-bit integers are read.
    pub fn from_json(data: &str) -> (r: Result<Graph, DeebeeError>)
        ensures
            match r {
                Ok(g) => json_nodes(data@, Seq::empty()) == Ok::<GraphModel, LoadFault>(g@) && links_checked(g@) && graph_wf(
                    g@,
                ) && forall|k: u128| #[trigger] g@.contains_key(k) ==> g@[k].id == k,
                Err(e) => match json_nodes(data@, Seq::empty()) {
                    Ok(gm) => !links_checked(gm) && is_link_error(gm, e),
                    Err(f) => load_error(f, e),
                },
            },
    {
        let t = FloatTable::new();
        Graph::from_json_with(data, &t)
    }
}

impl std::str::FromStr for Graph {
    type Err = DeebeeError;

    /// Reads a graph from its JSON text, as `from_json` does: with no float
    /// table, only number literals that are 64-bit integers are read.
    fn from_str(s: &str) -> (r: Result<Graph, DeebeeError>)
        ensures
            match r {
                Ok(g) => json_nodes(s@, Seq::empty()) == Ok::<GraphModel, LoadFault>(g@) && links_checked(g@) && graph_wf(
                    g@,
                ) && forall|k: u128| #[trigger] g@.contains_key(k) ==> g@[k].id == k,
                Err(e) => match json_nodes(s@, Seq::empty()) {
                    Ok(gm) => !links_checked(gm) && is_link_error(gm, e),
                    Err(f) => load_error(f, e),
                },
            },
    {
        Graph::from_json(s)
    }
}

} // verus!
