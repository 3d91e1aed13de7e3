//! Writing a graph as JSON text: one member per node, keyed by the node's
//! identifier, with its data and its arrows.
use vstd::prelude::*;
use vstd::string::StringExecFns;
use crate::arrow::{Arrow, ArrowModel};
use crate::node::{Node, NodeModel, links_model};
use crate::json::{json_text, escape_body, write_escaped};
use crate::ids::{id_text, id_text_spec};
use crate::graph::{Graph, GraphModel, lists_nodes};
use crate::text::push_char;

verus! {

/// An identifier between double quotes.
pub open spec fn quoted_id(id: u128) -> Seq<char> {
    seq!['"'] + id_text_spec(id) + seq!['"']
}

/// The quoted identifiers, separated by `", "`.
pub open spec fn ids_text(ids: Seq<u128>) -> Seq<char>
    decreases ids.len(),
{
    if ids.len() == 0 {
        Seq::empty()
    } else if ids.len() == 1 {
        quoted_id(ids[0])
    } else {
        ids_text(ids.drop_last()) + ", "@ + quoted_id(ids.last())
    }
}

/// One arrow with its identifiers; the labels are escaped as JSON strings.
pub open spec fn link_text(a: ArrowModel, ids: Seq<u128>) -> Seq<char> {
    "{\"label\": \""@ + escape_body(a.0) + "\", \"reverse\": \""@ + escape_body(a.1) + "\", \"neighbors\": ["@
        + ids_text(ids) + "]}"@
}

/// The arrows of a node, separated by a comma and a new line indented by
/// twelve spaces.
pub open spec fn links_text(ls: Seq<(ArrowModel, Seq<u128>)>) -> Seq<char>
    decreases ls.len(),
{
    if ls.len() == 0 {
        Seq::empty()
    } else if ls.len() == 1 {
        link_text(ls[0].0, ls[0].1)
    } else {
        links_text(ls.drop_last()) + ",\n            "@ + link_text(ls.last().0, ls.last().1)
    }
}

/// One node as a member of the graph's object.
pub open spec fn node_json(id: u128, n: NodeModel) -> Seq<char> {
    "    "@ + quoted_id(id) + ": {\n        \"data\": "@ + json_text(n.data) + ",\n        \"linked\": [\n            "@
        + links_text(n.links) + "\n        ]\n    }"@
}

/// The nodes with identifiers `ks`, separated by a comma and a new line.
pub open spec fn nodes_text(g: GraphModel, ks: Seq<u128>) -> Seq<char>
    decreases ks.len(),
{
    if ks.len() == 0 {
        Seq::empty()
    } else if ks.len() == 1 {
        node_json(ks[0], g[ks[0]])
    } else {
        nodes_text(g, ks.drop_last()) + ",\n"@ + node_json(ks.last(), g[ks.last()])
    }
}

/// The JSON text of the graph with its nodes in the order `ks`.
pub open spec fn graph_text(g: GraphModel, ks: Seq<u128>) -> Seq<char> {
    "{\n"@ + nodes_text(g, ks) + "\n}"@
}

/// Appends an identifier between double quotes.
fn write_quoted_id(id: u128, out: &mut String)
    ensures
        final(out)@ == old(out)@ + quoted_id(id),
{
    let t = id_text(id);
    push_char(out, '"');
    out.append(t.as_str());
    push_char(out, '"');
    assert(out@ =~= old(out)@ + quoted_id(id));
}

/// Appends the quoted identifiers.
fn write_ids(ids: &Vec<u128>, out: &mut String)
    ensures
        final(out)@ == old(out)@ + ids_text(ids@),
{
    let ghost start = out@;
    let n = ids.len();
    let mut i: usize = 0;
    assert(out@ =~= start + ids_text(ids@.subrange(0, 0)));
    while i < n
        invariant
            n == ids@.len(),
            0 <= i <= n,
            out@ == start + ids_text(ids@.subrange(0, i as int)),
        decreases n - i,
    {
        if i > 0 {
            out.append(", ");
        }
        write_quoted_id(ids[i], out);
        proof {
            let t = ids@.subrange(0, i + 1);
            assert(t.drop_last() =~= ids@.subrange(0, i as int));
            assert(t.last() == ids@[i as int]);
            assert(out@ =~= start + ids_text(t));
        }
        i = i + 1;
    }
    assert(ids@.subrange(0, n as int) =~= ids@);
}

/// Appends one arrow with its identifiers.
fn write_link(a: &Arrow, ids: &Vec<u128>, out: &mut String)
    ensures
        final(out)@ == old(out)@ + link_text(a@, ids@),
{
    out.append("{\"label\": \"");
    write_escaped(a.label.as_str(), out);
    out.append("\", \"reverse\": \"");
    write_escaped(a.reverse_label.as_str(), out);
    out.append("\", \"neighbors\": [");
    write_ids(ids, out);
    out.append("]}");
    assert(out@ =~= old(out)@ + link_text(a@, ids@));
}

/// Appends the arrows of a node.
fn write_links(node: &Node, out: &mut String)
    ensures
        final(out)@ == old(out)@ + links_text(node@.links),
{
    let ls = node.arrows();
    let ghost lm = node@.links;
    let ghost start = out@;
    let n = ls.len();
    let mut i: usize = 0;
    assert(out@ =~= start + links_text(lm.subrange(0, 0)));
    while i < n
        invariant
            n == lm.len(),
            lm == links_model(ls@),
            0 <= i <= n,
            out@ == start + links_text(lm.subrange(0, i as int)),
        decreases n - i,
    {
        if i > 0 {
            out.append(",\n            ");
        }
        let a = &ls[i].0;
        write_link(a, &ls[i].1, out);
        proof {
            let t = lm.subrange(0, i + 1);
            assert(t.drop_last() =~= lm.subrange(0, i as int));
            assert(t.last() == lm[i as int]);
            assert(lm[i as int] == (a@, ls@[i as int].1@));
            assert(out@ =~= start + links_text(t));
        }
        i = i + 1;
    }
    assert(lm.subrange(0, n as int) =~= lm);
}

/// Appends one node as a member.
fn write_node(id: u128, node: &Node, out: &mut String)
    ensures
        final(out)@ == old(out)@ + node_json(id, node@),
{
    out.append("    ");
    write_quoted_id(id, out);
    out.append(": {\n        \"data\": ");
    proof {
        crate::node::lemma_node_view(node);
    }
    let d = node.data.serialize();
    out.append(d.as_str());
    out.append(",\n        \"linked\": [\n            ");
    write_links(node, out);
    out.append("\n        ]\n    }");
    assert(out@ =~= old(out)@ + node_json(id, node@));
}

impl Graph {
    /// Appends the graph's JSON text: `{`, the nodes in the map's order,
    /// each as `"id": {"data": .., "linked": [..]}` on indented lines,
    /// separated by `,` and new lines, then `}`.
    pub fn write_json(&self, out: &mut String)
        ensures
            exists|ks: Seq<u128>| lists_nodes(self@, ks) && final(out)@ == old(out)@ + #[trigger] graph_text(self@, ks),
    {
        let ks = self.ids();
        let ghost start = out@;
        out.append("{\n");
        let n = ks.len();
        let mut i: usize = 0;
        assert(out@ =~= start + "{\n"@ + nodes_text(self@, ks@.subrange(0, 0)));
        while i < n
            invariant
                n == ks@.len(),
                0 <= i <= n,
                forall|k: u128| ks@.contains(k) <==> self@.contains_key(k),
                out@ == start + "{\n"@ + nodes_text(self@, ks@.subrange(0, i as int)),
            decreases n - i,
        {
            if i > 0 {
                out.append(",\n");
            }
            assert(ks@.contains(ks@[i as int]));
            let node = self.get(ks[i]).unwrap();
            write_node(ks[i], node, out);
            proof {
                let t = ks@.subrange(0, i + 1);
                assert(t.drop_last() =~= ks@.subrange(0, i as int));
                assert(t.last() == ks@[i as int]);
                assert(out@ =~= start + "{\n"@ + nodes_text(self@, t));
            }
            i = i + 1;
        }
        out.append("\n}");
        proof {
            assert(ks@.subrange(0, n as int) =~= ks@);
            assert(out@ =~= start + graph_text(self@, ks@));
            assert(lists_nodes(self@, ks@));
        }
    }

    /// The graph's JSON text, as `write_json` writes it.
    pub fn to_json(&self) -> (r: String)
        ensures
            exists|ks: Seq<u128>| lists_nodes(self@, ks) && r@ == #[trigger] graph_text(self@, ks),
    {
        let mut out = String::new();
        self.write_json(&mut out);
        proof {
            let ks = choose|ks: Seq<u128>| lists_nodes(self@, ks) && out@ == Seq::<char>::empty() + #[trigger] graph_text(self@, ks);
            assert(Seq::<char>::empty() + graph_text(self@, ks) =~= graph_text(self@, ks));
        }
        out
    }
}

} // verus!
