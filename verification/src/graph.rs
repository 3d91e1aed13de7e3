//! The graph: nodes by identifier, linked in both directions.
use vstd::prelude::*;
use std::collections::{HashMap, HashSet};
use vstd::std_specs::iter::IteratorSpec;
use crate::arrow::{Arrow, ArrowModel, reverse_model};
use crate::node::{Node, NodeModel, links_to, node_wf, add_id, remove_id, with_arrow, has_arrow, flat_links};
use crate::value::{Value, ValueModel, model_eq, values_equal};
use crate::error::DeebeeError;
use crate::ids::{id_text, id_text_spec};
use vstd::string::StringExecFns;

verus! {

broadcast use vstd::std_specs::hash::group_hash_axioms;

/// A graph: the nodes, each under its identifier.
#[derive(Debug)]
pub struct Graph {
    nodes: HashMap<u128, Node>,
}

/// The mathematical value of a graph: a map from identifiers to nodes.
pub type GraphModel = Map<u128, NodeModel>;

/// The model of a map of exec nodes.
pub open spec fn nodes_model(m: Map<u128, Node>) -> GraphModel {
    m.map_values(|n: Node| n@)
}

impl View for Graph {
    type V = GraphModel;

    closed spec fn view(&self) -> GraphModel {
        nodes_model(self.nodes@)
    }
}

/// Node `x` of the graph links to `y` through arrow `a`.
pub open spec fn linked(g: GraphModel, x: u128, a: ArrowModel, y: u128) -> bool {
    g.contains_key(x) && links_to(g[x], a, y)
}

/// Every link has its reverse: when `x` links to `y` through `a`, `y` is in
/// the graph and links to `x` through the reverse of `a`.
pub open spec fn bidirectional(g: GraphModel) -> bool {
    forall|x: u128, a: ArrowModel, y: u128| #[trigger] linked(g, x, a, y) ==> linked(g, y, reverse_model(a), x)
}

/// Every node of the graph is well formed.
pub open spec fn nodes_wf(g: GraphModel) -> bool {
    forall|k: u128| #[trigger] g.contains_key(k) ==> node_wf(g[k])
}

/// The graph keeps its invariant: well-formed nodes, linked in both
/// directions.
pub open spec fn graph_wf(g: GraphModel) -> bool {
    bidirectional(g) && nodes_wf(g)
}

impl Graph {
    /// The identifiers of the nodes, each once, in the map's order.
    pub(crate) fn ids(&self) -> (r: Vec<u128>)
        ensures
            r@.no_duplicates(),
            forall|k: u128| r@.contains(k) <==> self@.contains_key(k),
    {
        let mut r: Vec<u128> = Vec::new();
        let ghost ks = vstd::std_specs::hash::spec_keys_iter(&self.nodes).remaining();
        for k in it: self.nodes.keys()
            invariant
                it.seq() == ks,
                r@.len() == it.index(),
                forall|j: int| 0 <= j < it.index() ==> r@[j] == *it.seq()[j],
        {
            r.push(*k);
        }
        proof {
            assert(ks.unref().to_set() == self.nodes@.dom());
            assert(ks.no_duplicates());
            assert(r@.len() == ks.len());
            assert forall|k: u128| r@.contains(k) implies self@.contains_key(k) by {
                let j = choose|j: int| 0 <= j < r@.len() && r@[j] == k;
                assert(ks.unref()[j] == k);
                assert(ks.unref().to_set().contains(k));
            }
        }
        r
    }
}


/// The node with its links replaced.
pub open spec fn with_links(n: NodeModel, ls: Seq<(ArrowModel, Seq<u128>)>) -> NodeModel {
    NodeModel { links: ls, ..n }
}

/// The graph after a node is inserted under `k` as the exec `extend` does
/// for each pair in order.
pub open spec fn extend_model(g: GraphModel, es: Seq<(u128, NodeModel)>) -> GraphModel
    decreases es.len(),
{
    if es.len() == 0 {
        g
    } else {
        extend_model(g, es.subrange(0, es.len() - 1)).insert(es[es.len() - 1].0, es[es.len() - 1].1)
    }
}

/// The graph after node `x` links to `y` through `a`: `x`'s link is added
/// first; when it is new, `y`'s reverse link to `x` is added after.
pub open spec fn connect_model(g: GraphModel, x: u128, y: u128, a: ArrowModel) -> GraphModel {
    let g1 = g.insert(x, with_links(g[x], add_id(g[x].links, a, y)));
    if links_to(g[x], a, y) {
        g1
    } else {
        g1.insert(y, with_links(g1[y], add_id(g1[y].links, reverse_model(a), x)))
    }
}

/// The graph after node `x` stops linking to `y` through `a`: when the link
/// exists, `x`'s link is removed first, then `y`'s reverse link, if `y` is in
/// the graph.
pub open spec fn disconnect_model(g: GraphModel, x: u128, y: u128, a: ArrowModel) -> GraphModel {
    if !links_to(g[x], a, y) {
        g
    } else {
        let g1 = g.insert(x, with_links(g[x], remove_id(g[x].links, a, y)));
        if !g1.contains_key(y) {
            g1
        } else {
            g1.insert(y, with_links(g1[y], remove_id(g1[y].links, reverse_model(a), x)))
        }
    }
}

/// The graph after the links to node `id` listed in `fl` (pairs of arrow and
/// neighbour of `id`) are removed from the neighbours, in order: each
/// neighbour `y` reached through `a` stops linking to `id` through the
/// reverse of `a`. A link of `id` to itself leaves with `id` and is skipped.
pub open spec fn detach(g: GraphModel, id: u128, fl: Seq<(ArrowModel, u128)>) -> GraphModel
    decreases fl.len(),
{
    if fl.len() == 0 {
        g
    } else {
        let g1 = detach(g, id, fl.subrange(0, fl.len() - 1));
        let a = fl[fl.len() - 1].0;
        let y = fl[fl.len() - 1].1;
        if y == id {
            g1
        } else {
            g1.insert(y, with_links(g1[y], remove_id(g1[y].links, reverse_model(a), id)))
        }
    }
}

/// Removing a node panics in no step: each neighbour other than the node
/// itself is in the graph and has an entry for the reverse arrow.
pub open spec fn can_remove(g: GraphModel, id: u128) -> bool {
    g.contains_key(id) ==> forall|k: int| 0 <= k < flat_links(g[id].links).len() ==> {
        let y = (#[trigger] flat_links(g[id].links)[k]).1;
        let a = flat_links(g[id].links)[k].0;
        y != id ==> g.contains_key(y) && has_arrow(g[y], reverse_model(a))
    }
}

/// Detaching keeps the identifiers, keeps every node's arrows, and does not
/// touch `id`.
pub proof fn lemma_detach_frame(g: GraphModel, id: u128, fl: Seq<(ArrowModel, u128)>)
    requires
        forall|k: int| 0 <= k < fl.len() ==> (#[trigger] fl[k]).1 != id ==> g.contains_key(fl[k].1),
    ensures
        detach(g, id, fl).dom() == g.dom(),
        forall|y: u128, b: ArrowModel| g.contains_key(y) && #[trigger] has_arrow(g[y], b) ==> has_arrow(detach(g, id, fl)[y], b),
        forall|y: u128| #[trigger] g.contains_key(y) ==> detach(g, id, fl)[y].id == g[y].id && detach(g, id, fl)[y].data == g[y].data,
    decreases fl.len(),
{
    if fl.len() > 0 {
        let pre = fl.subrange(0, fl.len() - 1);
        assert forall|k: int| 0 <= k < pre.len() && (#[trigger] pre[k]).1 != id implies g.contains_key(pre[k].1) by {
            assert(pre[k] == fl[k]);
        }
        lemma_detach_frame(g, id, pre);
        let g1 = detach(g, id, pre);
        let a = fl[fl.len() - 1].0;
        let y = fl[fl.len() - 1].1;
        assert forall|z: u128, b: ArrowModel| g.contains_key(z) && #[trigger] has_arrow(g[z], b) implies has_arrow(detach(g, id, fl)[z], b) by {
            if z == y && y != id {
                crate::node::lemma_arrow_pos(g1[y].links, reverse_model(a));
                crate::node::lemma_arrow_pos(g1[y].links, b);
                let ls2 = remove_id(g1[y].links, reverse_model(a), id);
                crate::node::lemma_arrow_pos(ls2, b);
                if crate::node::arrow_pos(ls2, b) is None {
                    let p = crate::node::arrow_pos(g1[y].links, b)->Some_0;
                    match crate::node::arrow_pos(g1[y].links, reverse_model(a)) {
                        Some(q) => {
                            assert(ls2[p].0 == g1[y].links[p].0);
                        },
                        None => {},
                    }
                }
            }
        }
        assert(detach(g, id, fl).dom() =~= g.dom());
    }
}

impl Graph {
    /// Creates an empty graph.
    pub fn new() -> (r: Graph)
        ensures
            r@ == Map::<u128, NodeModel>::empty(),
    {
        let r = Graph { nodes: HashMap::new() };
        assert(r@ =~= Map::<u128, NodeModel>::empty());
        r
    }

    /// The node with this identifier, if any.
    pub fn get(&self, id: u128) -> (r: Option<&Node>)
        ensures
            match r {
                Some(n) => self@.contains_key(id) && n@ == self@[id],
                None => !self@.contains_key(id),
            },
    {
        self.nodes.get(&id)
    }

    /// Returns `true` if a node has this identifier.
    pub fn contains(&self, id: u128) -> (r: bool)
        ensures
            r == self@.contains_key(id),
    {
        self.nodes.contains_key(&id)
    }

    /// A graph holds finitely many nodes.
    pub proof fn lemma_finite(&self)
        ensures
            self@.dom().finite(),
    {
        assert(self@.dom() =~= self.nodes@.dom());
    }

    /// The number of nodes.
    pub fn len(&self) -> (r: usize)
        ensures
            r == self@.len(),
    {
        assert(self@.dom() =~= self.nodes@.dom());
        self.nodes.len()
    }

    /// Returns `true` if the graph has no nodes.
    pub fn is_empty(&self) -> (r: bool)
        ensures
            r == (self@.len() == 0),
    {
        assert(self@.dom() =~= self.nodes@.dom());
        self.nodes.len() == 0
    }

    /// The map of all nodes, by identifier.
    pub fn to_map(&self) -> (r: &HashMap<u128, Node>)
        ensures
            nodes_model(r@) == self@,
    {
        &self.nodes
    }

    /// Removes every node.
    pub fn clear(&mut self)
        ensures
            final(self)@ == Map::<u128, NodeModel>::empty(),
    {
        self.nodes.clear();
        assert(self@ =~= Map::<u128, NodeModel>::empty());
    }

    /// Inserts a node under its identifier, replacing any node with that
    /// identifier, and returns it.
    pub fn insert(&mut self, node: Node) -> (r: &Node)
        ensures
            final(self)@ == old(self)@.insert(node@.id, node@),
            r@ == node@,
    {
        proof {
            crate::node::lemma_node_view(&node);
        }
        let id = node.id;
        let ghost nm = node@;
        self.nodes.insert(id, node);
        assert(self@ =~= old(self)@.insert(id, nm));
        self.nodes.get(&id).unwrap()
    }

    /// Inserts a new node with this data and a fresh random identifier, and
    /// returns it. The identifier is random, so nothing rules out that it
    /// was already taken; the number of nodes tells: it grows by one exactly
    /// when the identifier was new.
    pub fn add(&mut self, data: Value) -> (r: &Node)
        ensures
            final(self)@ == old(self)@.insert(r@.id, r@),
            r@.data == data@,
            r@.links == Seq::<(ArrowModel, Seq<u128>)>::empty(),
            (r@.id as int / crate::ids::pow16(19)) % 16 == 4,
            (r@.id as int / 0x4000000000000000) % 4 == 2,
            final(self)@.len() == old(self)@.len() + 1 <==> !old(self)@.contains_key(r@.id),
    {
        proof {
            self.lemma_finite();
        }
        let node = Node::new(data);
        self.insert(node)
    }

    /// Inserts each node under the identifier paired with it, in order.
    pub fn extend(&mut self, extension: Vec<(u128, Node)>)
        ensures
            final(self)@ == extend_model(old(self)@, Seq::new(extension@.len(), |k: int| (extension@[k].0, extension@[k].1@))),
    {
        let ghost es = Seq::new(extension@.len(), |k: int| (extension@[k].0, extension@[k].1@));
        let ghost g0 = self@;
        let mut rest = extension;
        let ghost all = rest@;
        let n = rest.len();
        let mut k: usize = 0;
        while k < n
            invariant
                0 <= k <= n,
                n == all.len(),
                es == Seq::new(all.len(), |j: int| (all[j].0, all[j].1@)),
                rest@ == all.subrange(k as int, n as int),
                self@ == extend_model(g0, es.subrange(0, k as int)),
            decreases n - k,
        {
            let (id, node) = rest.remove(0);
            assert(all[k as int] == (id, node));
            let ghost nm = node@;
            self.nodes.insert(id, node);
            proof {
                let t = es.subrange(0, k + 1);
                assert(t.subrange(0, t.len() - 1) =~= es.subrange(0, k as int));
                assert(t[t.len() - 1] == (id, nm));
                assert(self@ =~= extend_model(g0, es.subrange(0, k as int)).insert(id, nm));
                assert(rest@ =~= all.subrange(k + 1, n as int));
            }
            k = k + 1;
        }
        assert(es.subrange(0, n as int) =~= es);
    }
}


impl Graph {
    /// Takes the node `id` out of the map, to be put back after a change.
    fn take_node(&mut self, id: u128) -> (r: Option<Node>)
        ensures
            match r {
                Some(n) => old(self)@.contains_key(id) && n@ == old(self)@[id] && final(self)@ == old(self)@.remove(id),
                None => !old(self)@.contains_key(id) && final(self)@ == old(self)@,
            },
    {
        let r = self.nodes.remove(&id);
        assert(self@ =~= old(self)@.remove(id));
        r
    }

    /// Puts a node under `id`.
    fn put_node(&mut self, id: u128, n: Node)
        ensures
            final(self)@ == old(self)@.insert(id, n@),
    {
        let ghost nm = n@;
        self.nodes.insert(id, n);
        assert(self@ =~= old(self)@.insert(id, nm));
    }

    /// Links node `from_id` to node `to_id` through `arrow`, and `to_id` back
    /// to `from_id` through the reverse arrow. Linking an existing link
    /// changes nothing (though it makes `from_id`'s entry for the arrow).
    /// Both nodes are looked up before anything changes:
    /// `Err(NodeNotFound(from_id))` when `from_id` is not in the graph, else
    /// `Err(NodeNotFound(to_id))` when `to_id` is not, each with the graph
    /// unchanged.
    pub fn connect(&mut self, from_id: u128, to_id: u128, arrow: &Arrow) -> (r: Result<(), DeebeeError>)
        ensures
            !old(self)@.contains_key(from_id) ==> r == Err::<(), DeebeeError>(DeebeeError::NodeNotFound(from_id))
                && final(self)@ == old(self)@,
            old(self)@.contains_key(from_id) && !old(self)@.contains_key(to_id) ==> r == Err::<(), DeebeeError>(
                DeebeeError::NodeNotFound(to_id),
            ) && final(self)@ == old(self)@,
            old(self)@.contains_key(from_id) && old(self)@.contains_key(to_id) ==> r is Ok && final(self)@
                == connect_model(old(self)@, from_id, to_id, arrow@),
    {
        if !self.contains(from_id) {
            return Err(DeebeeError::NodeNotFound(from_id));
        }
        if !self.contains(to_id) {
            return Err(DeebeeError::NodeNotFound(to_id));
        }
        let mut from = match self.take_node(from_id) {
            Some(n) => n,
            None => {
                return Err(DeebeeError::NodeNotFound(from_id));
            },
        };
        let added = from.add_link(arrow, to_id);
        self.put_node(from_id, from);
        let ghost g1 = self@;
        assert(g1 =~= old(self)@.insert(from_id, with_links(old(self)@[from_id], add_id(old(self)@[from_id].links, arrow@, to_id))));
        if added {
            let mut to = match self.take_node(to_id) {
                Some(n) => n,
                None => {
                    return Err(DeebeeError::NodeNotFound(to_id));
                },
            };
            let back = arrow.reverse();
            to.add_link(&back, from_id);
            self.put_node(to_id, to);
            assert(self@ =~= connect_model(old(self)@, from_id, to_id, arrow@));
        } else {
            assert(self@ =~= connect_model(old(self)@, from_id, to_id, arrow@));
        }
        Ok(())
    }

    /// Unlinks node `from_id` from node `to_id` through `arrow`, and `to_id`
    /// from `from_id` through the reverse arrow, when the link exists.
    /// `Err(NodeNotFound(from_id))`, with the graph unchanged, when
    /// `from_id` is not in the graph; `Err(NodeNotFound(to_id))` when the
    /// link exists and `to_id` is not in the graph, after `from_id`'s side is
    /// removed.
    pub fn disconnect(&mut self, from_id: u128, to_id: u128, arrow: &Arrow) -> (r: Result<(), DeebeeError>)
        requires
            old(self)@.contains_key(from_id) && links_to(old(self)@[from_id], arrow@, to_id) && old(self)@.contains_key(
                to_id,
            ) ==> has_arrow(old(self)@[to_id], reverse_model(arrow@)),
        ensures
            !old(self)@.contains_key(from_id) ==> r == Err::<(), DeebeeError>(DeebeeError::NodeNotFound(from_id))
                && final(self)@ == old(self)@,
            old(self)@.contains_key(from_id) ==> final(self)@ == disconnect_model(old(self)@, from_id, to_id, arrow@),
            old(self)@.contains_key(from_id) ==> (if !links_to(old(self)@[from_id], arrow@, to_id) || old(self)@.contains_key(to_id) {
                r is Ok
            } else {
                r == Err::<(), DeebeeError>(DeebeeError::NodeNotFound(to_id))
            }),
    {
        let present = match self.get(from_id) {
            Some(n) => n.contains(to_id, arrow),
            None => {
                return Err(DeebeeError::NodeNotFound(from_id));
            },
        };
        if !present {
            return Ok(());
        }
        let mut from = match self.take_node(from_id) {
            Some(n) => n,
            None => {
                return Err(DeebeeError::NodeNotFound(from_id));
            },
        };
        from.remove_link(arrow, to_id);
        self.put_node(from_id, from);
        let ghost g1 = self@;
        assert(g1 =~= old(self)@.insert(from_id, with_links(old(self)@[from_id], remove_id(old(self)@[from_id].links, arrow@, to_id))));
        let mut to = match self.take_node(to_id) {
            Some(n) => n,
            None => {
                return Err(DeebeeError::NodeNotFound(to_id));
            },
        };
        let back = arrow.reverse();
        to.remove_link(&back, from_id);
        self.put_node(to_id, to);
        assert(self@ =~= disconnect_model(old(self)@, from_id, to_id, arrow@));
        Ok(())
    }
}


impl Graph {
    /// Removes node `id` from the graph, and its links from its neighbours
    /// (each neighbour reached through an arrow stops linking to `id`
    /// through the reverse arrow); the neighbours stay. Links of `id` to
    /// itself go with it.
    /// `Err(NodeNotFound(id))`, with the graph unchanged, when `id` is not in
    /// the graph.
    pub fn remove(&mut self, id: u128) -> (r: Result<(), DeebeeError>)
        requires
            can_remove(old(self)@, id),
        ensures
            !old(self)@.contains_key(id) ==> r == Err::<(), DeebeeError>(DeebeeError::NodeNotFound(id)) && final(self)@
                == old(self)@,
            old(self)@.contains_key(id) ==> r is Ok && final(self)@ == detach(
                old(self)@.remove(id),
                id,
                flat_links(old(self)@[id].links),
            ),
    {
        let node = match self.take_node(id) {
            Some(n) => n,
            None => {
                return Err(DeebeeError::NodeNotFound(id));
            },
        };
        let pairs = node.iter();
        let ghost fl = flat_links(old(self)@[id].links);
        let ghost g0 = self@;
        proof {
            assert forall|k: int| 0 <= k < fl.len() && (#[trigger] fl[k]).1 != id implies g0.contains_key(fl[k].1)
                && has_arrow(g0[fl[k].1], reverse_model(fl[k].0)) by {
                assert(fl[k] == flat_links(old(self)@[id].links)[k]);
            }
        }
        let n = pairs.len();
        let mut k: usize = 0;
        while k < n
            invariant
                0 <= k <= n,
                n == fl.len(),
                pairs@.len() == fl.len(),
                forall|j: int| 0 <= j < n ==> (#[trigger] pairs@[j]).0@ == fl[j].0 && pairs@[j].1 == fl[j].1,
                forall|j: int| 0 <= j < fl.len() && (#[trigger] fl[j]).1 != id ==> g0.contains_key(fl[j].1)
                    && has_arrow(g0[fl[j].1], reverse_model(fl[j].0)),
                self@ == detach(g0, id, fl.subrange(0, k as int)),
            decreases n - k,
        {
            let (arrow, neighbor) = pairs[k];
            let back = arrow.reverse();
            let ghost pre = fl.subrange(0, k as int);
            proof {
                assert forall|j: int| 0 <= j < pre.len() && (#[trigger] pre[j]).1 != id implies g0.contains_key(pre[j].1) by {
                    assert(pre[j] == fl[j]);
                }
                lemma_detach_frame(g0, id, pre);
            }
            if neighbor == id {
                proof {
                    let t = fl.subrange(0, k + 1);
                    assert(t.subrange(0, t.len() - 1) =~= pre);
                    assert(t[t.len() - 1] == fl[k as int]);
                }
                k = k + 1;
                continue;
            }
            let mut nb = match self.take_node(neighbor) {
                Some(m) => m,
                None => {
                    assert(g0.contains_key(fl[k as int].1));
                    return Ok(());
                },
            };
            nb.remove_link(&back, id);
            self.put_node(neighbor, nb);
            proof {
                let t = fl.subrange(0, k + 1);
                assert(t.subrange(0, t.len() - 1) =~= pre);
                assert(t[t.len() - 1] == fl[k as int]);
                assert(self@ =~= detach(g0, id, t));
            }
            k = k + 1;
        }
        assert(fl.subrange(0, n as int) =~= fl);
        Ok(())
    }
}


impl Graph {
    /// The node with this identifier, for changing it in place.
    pub fn get_mut(&mut self, id: u128) -> (r: Option<&mut Node>)
        ensures
            match r {
                Some(n) => old(self)@.contains_key(id) && (*n)@ == old(self)@[id] && final(self)@ == old(self)@.insert(id, (*final(n))@),
                None => !old(self)@.contains_key(id) && final(self)@ == old(self)@,
            },
    {
        match self.nodes.entry(id) {
            std::collections::hash_map::Entry::Occupied(e) => Some(e.into_mut()),
            std::collections::hash_map::Entry::Vacant(_) => None,
        }
    }
}


/// The identifiers among `ks` whose node's data equals `d`, in order.
pub open spec fn matching_ids(g: GraphModel, ks: Seq<u128>, d: ValueModel) -> Seq<u128>
    decreases ks.len(),
{
    if ks.len() == 0 {
        Seq::empty()
    } else {
        let rest = matching_ids(g, ks.subrange(0, ks.len() - 1), d);
        let k = ks[ks.len() - 1];
        if model_eq(g[k].data, d) { rest.push(k) } else { rest }
    }
}

/// The identifiers linked through arrow `a` in the pairs `fl`, in order.
pub open spec fn arrow_targets(fl: Seq<(ArrowModel, u128)>, a: ArrowModel) -> Seq<u128>
    decreases fl.len(),
{
    if fl.len() == 0 {
        Seq::empty()
    } else {
        let rest = arrow_targets(fl.subrange(0, fl.len() - 1), a);
        if fl[fl.len() - 1].0 == a { rest.push(fl[fl.len() - 1].1) } else { rest }
    }
}

/// `ks` lists the nodes of `g`, each once.
pub open spec fn lists_nodes(g: GraphModel, ks: Seq<u128>) -> bool {
    ks.no_duplicates() && forall|k: u128| ks.contains(k) <==> g.contains_key(k)
}

/// The references are to the nodes of `g` with identifiers `ks`, in order.
pub open spec fn refs_are(g: GraphModel, r: Seq<&Node>, ks: Seq<u128>) -> bool {
    r.len() == ks.len() && forall|i: int|
        #![trigger r[i]]
        #![trigger ks[i]]
        0 <= i < ks.len() ==> g.contains_key(ks[i]) && r[i]@ == g[ks[i]]
}

/// Extending both sides of `refs_are` by one node keeps it.
pub proof fn lemma_refs_push(g: GraphModel, r: Seq<&Node>, ks: Seq<u128>, n: &Node, k: u128)
    requires
        refs_are(g, r, ks),
        g.contains_key(k),
        n@ == g[k],
    ensures
        refs_are(g, r.push(n), ks.push(k)),
{
    assert forall|i: int| 0 <= i < ks.push(k).len() implies g.contains_key(ks.push(k)[i]) && r.push(n)[i]@
        == g[ks.push(k)[i]] by {
        if i < ks.len() {
            assert(r.push(n)[i] == r[i]);
            assert(ks.push(k)[i] == ks[i]);
            assert(r[i]@ == g[ks[i]]);
        } else {
            assert(ks.push(k)[i] == k);
        }
    }
}

impl Graph {
    /// Every node, each once, in the map's order.
    pub fn iter(&self) -> (r: Vec<&Node>)
        ensures
            exists|ks: Seq<u128>| lists_nodes(self@, ks) && refs_are(self@, r@, ks),
    {
        let ks = self.ids();
        let mut r: Vec<&Node> = Vec::new();
        let n = ks.len();
        let mut i: usize = 0;
        while i < n
            invariant
                n == ks@.len(),
                0 <= i <= n,
                forall|k: u128| ks@.contains(k) <==> self@.contains_key(k),
                refs_are(self@, r@, ks@.subrange(0, i as int)),
            decreases n - i,
        {
            assert(ks@.contains(ks@[i as int]));
            let node = self.get(ks[i]).unwrap();
            proof {
                lemma_refs_push(self@, r@, ks@.subrange(0, i as int), node, ks@[i as int]);
                assert(ks@.subrange(0, i as int).push(ks@[i as int]) =~= ks@.subrange(0, i + 1));
            }
            r.push(node);
            i = i + 1;
        }
        assert(ks@.subrange(0, n as int) =~= ks@);
        assert(lists_nodes(self@, ks@) && refs_are(self@, r@, ks@));
        r
    }

    /// The nodes among `ks`, in order, whose data equals `data`.
    fn select_matching(&self, ks: &Vec<u128>, data: &Value) -> (r: Vec<&Node>)
        requires
            forall|i: int| 0 <= i < ks@.len() ==> self@.contains_key(#[trigger] ks@[i]),
        ensures
            refs_are(self@, r@, matching_ids(self@, ks@, data@)),
    {
        let mut r: Vec<&Node> = Vec::new();
        let n = ks.len();
        let mut i: usize = 0;
        while i < n
            invariant
                n == ks@.len(),
                0 <= i <= n,
                forall|j: int| 0 <= j < ks@.len() ==> self@.contains_key(#[trigger] ks@[j]),
                refs_are(self@, r@, matching_ids(self@, ks@.subrange(0, i as int), data@)),
            decreases n - i,
        {
            let node = self.get(ks[i]).unwrap();
            proof {
                crate::node::lemma_node_view(node);
                let t = ks@.subrange(0, i + 1);
                assert(t.subrange(0, t.len() - 1) =~= ks@.subrange(0, i as int));
            }
            if values_equal(&node.data, data) {
                proof {
                    lemma_refs_push(self@, r@, matching_ids(self@, ks@.subrange(0, i as int), data@), node, ks@[i as int]);
                }
                r.push(node);
            }
            i = i + 1;
        }
        assert(ks@.subrange(0, n as int) =~= ks@);
        r
    }

    /// Every node whose data equals `data`, in the map's order.
    pub fn find(&self, data: &Value) -> (r: Vec<&Node>)
        ensures
            exists|ks: Seq<u128>| lists_nodes(self@, ks) && refs_are(self@, r@, matching_ids(self@, ks, data@)),
    {
        let ks = self.ids();
        proof {
            assert forall|i: int| 0 <= i < ks@.len() implies self@.contains_key(#[trigger] ks@[i]) by {
                assert(ks@.contains(ks@[i]));
            }
        }
        let r = self.select_matching(&ks, data);
        assert(lists_nodes(self@, ks@) && refs_are(self@, r@, matching_ids(self@, ks@, data@)));
        r
    }

    /// The identifiers that node `start` links to through `arrow`.
    fn targets(node: &Node, arrow: &Arrow) -> (r: Vec<u128>)
        ensures
            r@ == arrow_targets(flat_links(node@.links), arrow@),
    {
        let pairs = node.iter();
        let ghost fl = flat_links(node@.links);
        let mut r: Vec<u128> = Vec::new();
        let n = pairs.len();
        let mut i: usize = 0;
        while i < n
            invariant
                n == fl.len(),
                pairs@.len() == fl.len(),
                forall|j: int| 0 <= j < n ==> (#[trigger] pairs@[j]).0@ == fl[j].0 && pairs@[j].1 == fl[j].1,
                0 <= i <= n,
                r@ == arrow_targets(fl.subrange(0, i as int), arrow@),
            decreases n - i,
        {
            proof {
                let t = fl.subrange(0, i + 1);
                assert(t.subrange(0, t.len() - 1) =~= fl.subrange(0, i as int));
            }
            if pairs[i].0.same(arrow) {
                r.push(pairs[i].1);
            }
            i = i + 1;
        }
        assert(fl.subrange(0, n as int) =~= fl);
        r
    }

    /// The nodes that node `start` links to through `arrow`, in link order.
    /// `Err(NodeNotFound(start))` when `start` is not in the graph.
    pub fn neighbors(&self, start: u128, arrow: &Arrow) -> (r: Result<Vec<&Node>, DeebeeError>)
        requires
            self@.contains_key(start) ==> forall|i: int|
                0 <= i < arrow_targets(flat_links(self@[start].links), arrow@).len() ==> self@.contains_key(
                    #[trigger] arrow_targets(flat_links(self@[start].links), arrow@)[i],
                ),
        ensures
            match r {
                Ok(ns) => self@.contains_key(start) && refs_are(
                    self@,
                    ns@,
                    arrow_targets(flat_links(self@[start].links), arrow@),
                ),
                Err(e) => !self@.contains_key(start) && e == DeebeeError::NodeNotFound(start),
            },
    {
        let node = match self.get(start) {
            Some(n) => n,
            None => {
                return Err(DeebeeError::NodeNotFound(start));
            },
        };
        let ks = Graph::targets(node, arrow);
        let mut r: Vec<&Node> = Vec::new();
        let n = ks.len();
        let mut i: usize = 0;
        while i < n
            invariant
                n == ks@.len(),
                0 <= i <= n,
                forall|j: int| 0 <= j < ks@.len() ==> self@.contains_key(#[trigger] ks@[j]),
                refs_are(self@, r@, ks@.subrange(0, i as int)),
            decreases n - i,
        {
            let m = self.get(ks[i]).unwrap();
            proof {
                lemma_refs_push(self@, r@, ks@.subrange(0, i as int), m, ks@[i as int]);
                assert(ks@.subrange(0, i as int).push(ks@[i as int]) =~= ks@.subrange(0, i + 1));
            }
            r.push(m);
            i = i + 1;
        }
        assert(ks@.subrange(0, n as int) =~= ks@);
        Ok(r)
    }

    /// Every pair of arrow and neighbour of node `start`, in link order.
    /// `Err(NodeNotFound(start))` when `start` is not in the graph.
    pub fn all_neighbors(&self, start: u128) -> (r: Result<Vec<(&Arrow, &Node)>, DeebeeError>)
        requires
            self@.contains_key(start) ==> forall|i: int|
                0 <= i < flat_links(self@[start].links).len() ==> self@.contains_key(
                    (#[trigger] flat_links(self@[start].links)[i]).1,
                ),
        ensures
            match r {
                Ok(ps) => self@.contains_key(start) && ps@.len() == flat_links(self@[start].links).len() && forall|i: int|
                    0 <= i < ps@.len() ==> (#[trigger] ps@[i]).0@ == flat_links(self@[start].links)[i].0 && ps@[i].1@
                        == self@[flat_links(self@[start].links)[i].1],
                Err(e) => !self@.contains_key(start) && e == DeebeeError::NodeNotFound(start),
            },
    {
        let node = match self.get(start) {
            Some(n) => n,
            None => {
                return Err(DeebeeError::NodeNotFound(start));
            },
        };
        let pairs = node.iter();
        let ghost fl = flat_links(node@.links);
        let mut r: Vec<(&Arrow, &Node)> = Vec::new();
        let n = pairs.len();
        let mut i: usize = 0;
        while i < n
            invariant
                n == fl.len(),
                fl == flat_links(self@[start].links),
                pairs@.len() == fl.len(),
                forall|j: int| 0 <= j < n ==> (#[trigger] pairs@[j]).0@ == fl[j].0 && pairs@[j].1 == fl[j].1,
                forall|j: int| 0 <= j < n ==> self@.contains_key((#[trigger] fl[j]).1),
                0 <= i <= n,
                r@.len() == i,
                forall|j: int| 0 <= j < i ==> (#[trigger] r@[j]).0@ == fl[j].0 && r@[j].1@ == self@[fl[j].1],
            decreases n - i,
        {
            assert(self@.contains_key(fl[i as int].1));
            let m = self.get(pairs[i].1).unwrap();
            r.push((pairs[i].0, m));
            i = i + 1;
        }
        Ok(r)
    }

    /// The nodes that node `id` links to through `arrow` whose data equals
    /// `data`, in link order. `Err(NodeNotFound(id))` when `id` is not in the
    /// graph.
    pub fn find_neighbors(&self, id: u128, data: &Value, arrow: &Arrow) -> (r: Result<Vec<&Node>, DeebeeError>)
        requires
            self@.contains_key(id) ==> forall|i: int|
                0 <= i < arrow_targets(flat_links(self@[id].links), arrow@).len() ==> self@.contains_key(
                    #[trigger] arrow_targets(flat_links(self@[id].links), arrow@)[i],
                ),
        ensures
            match r {
                Ok(ns) => self@.contains_key(id) && refs_are(
                    self@,
                    ns@,
                    matching_ids(self@, arrow_targets(flat_links(self@[id].links), arrow@), data@),
                ),
                Err(e) => !self@.contains_key(id) && e == DeebeeError::NodeNotFound(id),
            },
    {
        let node = match self.get(id) {
            Some(n) => n,
            None => {
                return Err(DeebeeError::NodeNotFound(id));
            },
        };
        let ks = Graph::targets(node, arrow);
        Ok(self.select_matching(&ks, data))
    }
}


// ---------------------------------------------------------------------------
// Traversal
// ---------------------------------------------------------------------------

/// Arrow `a` passes the filter: any arrow when there is none, else that one.
pub open spec fn passes(f: Option<ArrowModel>, a: ArrowModel) -> bool {
    match f {
        Some(b) => a == b,
        None => true,
    }
}

/// Node `x` of the graph has a link to `y` through an arrow that passes the
/// filter, among its pairs of arrow and identifier.
pub open spec fn step(g: GraphModel, f: Option<ArrowModel>, x: u128, y: u128) -> bool {
    g.contains_key(x) && exists|j: int|
        0 <= j < flat_links(g[x].links).len() && (#[trigger] flat_links(g[x].links)[j]).1 == y && passes(
            f,
            flat_links(g[x].links)[j].0,
        )
}

/// A sequence of nodes, each linked to the next through arrows that pass
/// the filter.
pub open spec fn is_path(g: GraphModel, f: Option<ArrowModel>, p: Seq<u128>) -> bool {
    p.len() >= 1 && forall|i: int| 0 <= i < p.len() - 1 ==> #[trigger] step(g, f, p[i], p[i + 1])
}

/// `x` can be reached from `s` by following links through arrows that pass
/// the filter (`s` reaches itself).
pub open spec fn reachable(g: GraphModel, f: Option<ArrowModel>, s: u128, x: u128) -> bool {
    exists|p: Seq<u128>| #[trigger] is_path(g, f, p) && p[0] == s && p[p.len() - 1] == x
}

/// Following a link from a reachable node reaches its target.
pub proof fn lemma_reach_step(g: GraphModel, f: Option<ArrowModel>, s: u128, x: u128, y: u128)
    requires
        reachable(g, f, s, x),
        step(g, f, x, y),
    ensures
        reachable(g, f, s, y),
{
    let p = choose|p: Seq<u128>| #[trigger] is_path(g, f, p) && p[0] == s && p[p.len() - 1] == x;
    let q = p.push(y);
    assert forall|i: int| 0 <= i < q.len() - 1 implies #[trigger] step(g, f, q[i], q[i + 1]) by {
        if i < p.len() - 1 {
            assert(q[i] == p[i] && q[i + 1] == p[i + 1]);
        } else {
            assert(q[i] == x && q[i + 1] == y);
        }
    }
    assert(is_path(g, f, q));
}

/// A node reaches itself.
pub proof fn lemma_reach_self(g: GraphModel, f: Option<ArrowModel>, s: u128)
    ensures
        reachable(g, f, s, s),
{
    let p = seq![s];
    assert(is_path(g, f, p));
}

/// A set that holds `s` and is closed under links holds every node that `s`
/// reaches.
pub proof fn lemma_closed_holds_reachable(g: GraphModel, f: Option<ArrowModel>, s: u128, set: Set<u128>, x: u128)
    requires
        set.contains(s),
        forall|u: u128, v: u128| #[trigger] set.contains(u) && #[trigger] step(g, f, u, v) ==> set.contains(v),
        reachable(g, f, s, x),
    ensures
        set.contains(x),
{
    let p = choose|p: Seq<u128>| #[trigger] is_path(g, f, p) && p[0] == s && p[p.len() - 1] == x;
    lemma_path_in_closed(g, f, p, set, p.len() - 1);
}

/// Every node of a path lies in a set that holds the path's first node and
/// is closed under links.
proof fn lemma_path_in_closed(g: GraphModel, f: Option<ArrowModel>, p: Seq<u128>, set: Set<u128>, k: int)
    requires
        is_path(g, f, p),
        set.contains(p[0]),
        forall|u: u128, v: u128| #[trigger] set.contains(u) && #[trigger] step(g, f, u, v) ==> set.contains(v),
        0 <= k < p.len(),
    ensures
        set.contains(p[k]),
    decreases k,
{
    if k > 0 {
        lemma_path_in_closed(g, f, p, set, k - 1);
        let j = k - 1;
        assert(p[j + 1] == p[k]);
        assert(step(g, f, p[j], p[j + 1]));
    }
}

/// No traversal panics: every node reachable from `s` links, through
/// arrows that pass the filter, only to nodes of the graph.
pub open spec fn traversable(g: GraphModel, f: Option<ArrowModel>, s: u128) -> bool {
    forall|x: u128, y: u128| reachable(g, f, s, x) && #[trigger] step(g, f, x, y) ==> g.contains_key(y)
}

/// The stack and the set of seen identifiers after the pairs `fl` of a node
/// are looked at in order: each target through an arrow that passes the
/// filter and not seen yet is pushed and marked seen.
pub open spec fn push_unseen(fl: Seq<(ArrowModel, u128)>, f: Option<ArrowModel>, stack: Seq<u128>, seen: Set<u128>) -> (
    Seq<u128>,
    Set<u128>,
)
    decreases fl.len(),
{
    if fl.len() == 0 {
        (stack, seen)
    } else {
        let prev = push_unseen(fl.drop_last(), f, stack, seen);
        let y = fl.last().1;
        if passes(f, fl.last().0) && !prev.1.contains(y) {
            (prev.0.push(y), prev.1.insert(y))
        } else {
            prev
        }
    }
}

/// The identifiers a depth-first search gives, for at most `fuel` steps:
/// the top of the stack is taken, its unseen targets are pushed, and so on
/// until the stack is empty.
pub open spec fn dfs(g: GraphModel, f: Option<ArrowModel>, stack: Seq<u128>, seen: Set<u128>, fuel: nat) -> Seq<u128>
    decreases fuel,
{
    if fuel == 0 || stack.len() == 0 {
        Seq::empty()
    } else {
        let x = stack.last();
        let next = push_unseen(flat_links(g[x].links), f, stack.drop_last(), seen);
        seq![x] + dfs(g, f, next.0, next.1, (fuel - 1) as nat)
    }
}

/// The order in which a depth-first search from `s` meets the nodes (one
/// step per node of the graph is always enough).
pub open spec fn dfs_order(g: GraphModel, f: Option<ArrowModel>, s: u128) -> Seq<u128> {
    dfs(g, f, seq![s], set![s], (g.dom().len() + 1) as nat)
}

/// The identifiers a traversal from `s` gives: the nodes reachable from `s`,
/// each once, `s` first, in depth-first order.
pub open spec fn traversal_keys(g: GraphModel, f: Option<ArrowModel>, s: u128, ks: Seq<u128>) -> bool {
    &&& ks == dfs_order(g, f, s)
    &&& ks.no_duplicates()
    &&& ks.len() > 0 && ks[0] == s
    &&& forall|x: u128| ks.contains(x) <==> reachable(g, f, s, x)
}

/// The result of a traversal from `s`: the nodes reachable from `s`, each
/// once, `s` first, in depth-first order.
pub open spec fn traversal_of(g: GraphModel, f: Option<ArrowModel>, s: u128, r: Seq<&Node>) -> bool {
    exists|ks: Seq<u128>| #[trigger] refs_are(g, r, ks) && traversal_keys(g, f, s, ks)
}

/// The filter as a model.
pub open spec fn filter_model(filter: Option<&Arrow>) -> Option<ArrowModel> {
    match filter {
        Some(a) => Some(a@),
        None => None,
    }
}

impl Graph {
    /// Depth-first traversal from `start` through arrows that pass the
    /// filter: a node is given after the unseen nodes it links to are put
    /// on the stack.
    fn traverse_filtered(&self, start: u128, filter: Option<&Arrow>) -> (r: Result<Vec<&Node>, DeebeeError>)
        requires
            self@.contains_key(start) ==> traversable(self@, filter_model(filter), start),
        ensures
            match r {
                Ok(ns) => self@.contains_key(start) && traversal_of(self@, filter_model(filter), start, ns@),
                Err(e) => !self@.contains_key(start) && e == DeebeeError::NodeNotFound(start),
            },
    {
        let ghost f = filter_model(filter);
        let ghost g = self@;
        let start_node = match self.get(start) {
            Some(n) => n,
            None => {
                return Err(DeebeeError::NodeNotFound(start));
            },
        };
        let mut seen: HashSet<u128> = HashSet::new();
        seen.insert(start);
        let mut stack: Vec<(u128, &Node)> = Vec::new();
        stack.push((start, start_node));
        let ghost mut stk: Seq<u128> = seq![start];
        let mut out: Vec<&Node> = Vec::new();
        let ghost mut outk: Seq<u128> = Seq::empty();
        proof {
            lemma_reach_self(g, f, start);
            assert((outk + stk) =~= seq![start]);
            assert(seen@ =~= set![start]);
            assert(outk + dfs(g, f, stk, seen@, (g.dom().len() + 1) as nat) =~= dfs_order(g, f, start));
            assert(g.dom() =~= self.nodes@.dom());
            assert(self.nodes@.dom().finite());
            assert forall|x: u128| #[trigger] seen@.contains(x) <==> (outk + stk).contains(x) by {
                if x == start {
                    assert((outk + stk)[0] == start);
                }
            }
        }
        while stack.len() > 0
            invariant
                g == self@,
                f == filter_model(filter),
                g.dom().finite(),
                g.contains_key(start),
                traversable(g, f, start),
                seen@.subset_of(g.dom()),
                seen@.finite(),
                seen@.contains(start),
                refs_are(g, out@, outk),
                stack@.len() == stk.len(),
                forall|i: int| 0 <= i < stack@.len() ==> (#[trigger] stack@[i]).0 == stk[i] && g.contains_key(stk[i])
                    && stack@[i].1@ == g[stk[i]],
                (outk + stk).no_duplicates(),
                forall|x: u128| #[trigger] seen@.contains(x) <==> (outk + stk).contains(x),
                forall|x: u128| #[trigger] seen@.contains(x) ==> reachable(g, f, start, x),
                forall|u: u128, v: u128| #[trigger] outk.contains(u) && #[trigger] step(g, f, u, v) ==> seen@.contains(v),
                outk.len() == 0 ==> stk == seq![start],
                outk.len() > 0 ==> outk[0] == start,
                outk.len() <= g.dom().len() + 1,
                outk + dfs(g, f, stk, seen@, (g.dom().len() + 1 - outk.len()) as nat) == dfs_order(g, f, start),
            decreases g.dom().len() - seen@.len(), stack@.len(),
        {
            let ghost seen0 = seen@;
            let ghost stk0 = stk;
            let (x, node) = stack.pop().unwrap();
            proof {
                assert(stk0[stk0.len() - 1] == x);
                stk = stk0.subrange(0, stk0.len() - 1);
            }
            let ghost base = stk;
            let ghost mut newk: Seq<u128> = Seq::empty();
            let pairs = node.iter();
            let ghost fl = flat_links(g[x].links);
            let ghost fuel = (g.dom().len() + 1 - outk.len()) as nat;
            proof {
                assert(seen0.contains(x)) by {
                    assert((outk + stk0)[outk.len() + stk0.len() - 1] == x);
                }
                assert(outk.len() + stk0.len() <= g.dom().len()) by {
                    let w = outk + stk0;
                    w.unique_seq_to_set();
                    assert(w.to_set() =~= seen0);
                    vstd::set_lib::lemma_len_subset(seen0, g.dom());
                }
                assert(stk0.drop_last() == base);
                assert(fuel >= 1);
            }
            let n = pairs.len();
            let mut i: usize = 0;
            while i < n
                invariant
                    g == self@,
                    f == filter_model(filter),
                    g.contains_key(x),
                    node@ == g[x],
                    fl == flat_links(g[x].links),
                    n == fl.len(),
                    pairs@.len() == fl.len(),
                    forall|j: int| 0 <= j < n ==> (#[trigger] pairs@[j]).0@ == fl[j].0 && pairs@[j].1 == fl[j].1,
                    0 <= i <= n,
                    seen@.subset_of(g.dom()),
                    seen@.finite(),
                    reachable(g, f, start, x),
                    traversable(g, f, start),
                    forall|j: int| 0 <= j < i && passes(f, fl[j].0) ==> seen@.contains(#[trigger] fl[j].1),
                    stk == base + newk,
                    stack@.len() == stk.len(),
                    forall|k: int| 0 <= k < stack@.len() ==> (#[trigger] stack@[k]).0 == stk[k] && g.contains_key(stk[k])
                        && stack@[k].1@ == g[stk[k]],
                    newk.no_duplicates(),
                    forall|y: u128| #[trigger] seen@.contains(y) <==> seen0.contains(y) || newk.contains(y),
                    forall|y: u128| #[trigger] newk.contains(y) ==> !seen0.contains(y) && reachable(g, f, start, y),
                    push_unseen(fl.subrange(0, i as int), f, base, seen0) == (stk, seen@),
                decreases n - i,
            {
                let (arrow, id) = pairs[i];
                let ok = match filter {
                    Some(fa) => arrow.same(fa),
                    None => true,
                };
                let ghost stk_before = stk;
                let ghost seen_before = seen@;
                proof {
                    let pre = fl.subrange(0, i + 1);
                    assert(pre.drop_last() =~= fl.subrange(0, i as int));
                    assert(pre.last() == fl[i as int]);
                }
                if ok {
                    proof {
                        assert(passes(f, fl[i as int].0));
                        assert(step(g, f, x, id));
                        lemma_reach_step(g, f, start, x, id);
                    }
                    if seen.insert(id) {
                        assert(g.contains_key(id));
                        let m = self.get(id).unwrap();
                        proof {
                            broadcast use vstd::seq_lib::lemma_seq_contains_after_push;
                            assert(!newk.contains(id));
                            newk = newk.push(id);
                            stk = stk.push(id);
                            assert(stk =~= base + newk);
                        }
                        stack.push((id, m));
                    } else {
                        proof {
                            assert(seen@ =~= seen_before);
                        }
                    }
                }
                proof {
                    assert(push_unseen(fl.subrange(0, i + 1), f, base, seen0) == (stk, seen@));
                }
                i = i + 1;
            }
            proof {
                let outk2 = outk.push(x);
                assert(fl.subrange(0, n as int) =~= fl);
                assert(dfs(g, f, stk0, seen0, fuel) == seq![x] + dfs(g, f, stk, seen@, (fuel - 1) as nat));
                assert(outk2 + dfs(g, f, stk, seen@, (fuel - 1) as nat) =~= outk + dfs(g, f, stk0, seen0, fuel));
                assert(stk0 =~= base.push(x));
                assert forall|y: u128| #[trigger] seen@.contains(y) <==> (outk2 + stk).contains(y) by {
                    if seen@.contains(y) {
                        if seen0.contains(y) {
                            assert((outk + stk0).contains(y));
                            let q = choose|q: int| 0 <= q < (outk + stk0).len() && (outk + stk0)[q] == y;
                            if q < outk.len() {
                                assert((outk2 + stk)[q] == y);
                            } else if q == outk.len() + stk0.len() - 1 {
                                assert((outk2 + stk)[outk.len() as int] == y);
                            } else {
                                assert((outk2 + stk)[q + 1] == y);
                            }
                        } else {
                            let q = choose|q: int| 0 <= q < newk.len() && newk[q] == y;
                            assert((outk2 + stk)[outk2.len() + base.len() + q] == y);
                        }
                    }
                    if (outk2 + stk).contains(y) {
                        let q = choose|q: int| 0 <= q < (outk2 + stk).len() && (outk2 + stk)[q] == y;
                        if q < outk.len() {
                            assert((outk + stk0)[q] == y);
                        } else if q == outk.len() {
                            assert(y == x);
                        } else if q < outk2.len() + base.len() {
                            assert((outk + stk0)[q - 1] == y);
                        } else {
                            assert(newk[q - outk2.len() - base.len()] == y);
                        }
                    }
                }
                assert((outk2 + stk).no_duplicates()) by {
                    assert forall|p: int, q: int| 0 <= p < q < (outk2 + stk).len() implies (outk2 + stk)[p] != (outk2 + stk)[q] by {
                        let w = outk2 + stk;
                        let v = outk + stk0;
                        let lo = outk2.len() + base.len();
                        if q < lo {
                            let pp = if p < outk.len() { p } else if p == outk.len() { v.len() - 1 } else { p - 1 };
                            let qq = if q < outk.len() { q } else if q == outk.len() { v.len() - 1 } else { q - 1 };
                            assert(w[p] == v[pp]);
                            assert(w[q] == v[qq]);
                        } else if p >= lo {
                            assert(w[p] == newk[p - lo]);
                            assert(w[q] == newk[q - lo]);
                        } else {
                            assert(w[q] == newk[q - lo]);
                            assert(newk.contains(w[q]));
                            let pp = if p < outk.len() { p } else if p == outk.len() { v.len() - 1 } else { p - 1 };
                            assert(w[p] == v[pp]);
                            assert(seen0.contains(v[pp]));
                        }
                    }
                }
                assert forall|u: u128, v: u128| #[trigger] outk2.contains(u) && #[trigger] step(g, f, u, v) implies seen@.contains(v) by {
                    if u == x {
                        let j = choose|j: int| 0 <= j < fl.len() && (#[trigger] fl[j]).1 == v && passes(f, fl[j].0);
                        assert(seen@.contains(fl[j].1));
                    } else {
                        let q = choose|q: int| 0 <= q < outk2.len() && outk2[q] == u;
                        assert(outk[q] == u);
                        assert(outk.contains(u));
                    }
                }
                if newk.len() > 0 {
                    assert(seen0.subset_of(seen@));
                    assert(newk.contains(newk[0]));
                    assert(!seen0.contains(newk[0]));
                    assert(seen@.contains(newk[0]));
                    vstd::set_lib::lemma_len_subset(seen0, seen@);
                    assert(seen0 != seen@);
                    assert(seen0.len() < seen@.len()) by {
                        vstd::set_lib::lemma_len_subset(seen0.insert(newk[0]), seen@);
                    }
                    vstd::set_lib::lemma_len_subset(seen@, g.dom());
                } else {
                    assert(seen@ =~= seen0);
                }
                outk = outk2;
            }
            proof {
                crate::graph::lemma_refs_push(g, out@, outk.subrange(0, outk.len() - 1), node, x);
                assert(outk.subrange(0, outk.len() - 1).push(x) =~= outk);
            }
            out.push(node);
        }
        proof {
            assert(stk =~= Seq::<u128>::empty());
            assert(outk + stk =~= outk);
            assert(outk + Seq::<u128>::empty() =~= outk);
            assert forall|y: u128| #[trigger] outk.contains(y) <==> reachable(g, f, start, y) by {
                if reachable(g, f, start, y) {
                    assert(outk.to_set().contains(start)) by {
                        assert(seen@.contains(start));
                    }
                    assert forall|u: u128, v: u128| #[trigger] outk.to_set().contains(u) && #[trigger] step(g, f, u, v) implies outk.to_set().contains(v) by {
                        assert(outk.contains(u));
                        assert(seen@.contains(v));
                    }
                    lemma_closed_holds_reachable(g, f, start, outk.to_set(), y);
                }
                if outk.contains(y) {
                    assert(seen@.contains(y));
                }
            }
            assert(refs_are(g, out@, outk) && traversal_keys(g, f, start, outk));
        }
        Ok(out)
    }
}

/// The nodes a traversal from `s` gives, kept in order where their data
/// equals `d`.
pub open spec fn tree_matches(g: GraphModel, f: Option<ArrowModel>, s: u128, d: ValueModel, r: Seq<&Node>) -> bool {
    exists|ks: Seq<u128>| traversal_keys(g, f, s, ks) && #[trigger] refs_are(g, r, matching_ids(g, ks, d))
}

/// In a well-formed graph every link leads to a node of the graph, so no
/// traversal, whatever its start and filter, meets a missing node.
pub proof fn law_wf_traversable(g: GraphModel, f: Option<ArrowModel>, s: u128)
    requires
        graph_wf(g),
    ensures
        traversable(g, f, s),
{
    assert forall|x: u128, y: u128| reachable(g, f, s, x) && #[trigger] step(g, f, x, y) implies g.contains_key(y) by {
        let fl = flat_links(g[x].links);
        let j = choose|j: int| 0 <= j < fl.len() && (#[trigger] fl[j]).1 == y && passes(f, fl[j].0);
        crate::node::lemma_flat_links_linked(g[x], j);
        assert(linked(g, x, fl[j].0, y));
        assert(linked(g, y, reverse_model(fl[j].0), x));
    }
}

impl Graph {
    /// Depth-first traversal from `start` through every arrow: each node
    /// reachable from `start` once, `start` first, in the order of
    /// `dfs_order`.
    /// `Err(NodeNotFound(start))` when `start` is not in the graph.
    pub fn traverse_all(&self, start: u128) -> (r: Result<Vec<&Node>, DeebeeError>)
        requires
            self@.contains_key(start) ==> traversable(self@, None, start),
        ensures
            match r {
                Ok(ns) => self@.contains_key(start) && traversal_of(self@, None, start, ns@),
                Err(e) => !self@.contains_key(start) && e == DeebeeError::NodeNotFound(start),
            },
    {
        self.traverse_filtered(start, None)
    }

    /// Depth-first traversal from `start` through `arrow` only: each node
    /// reachable that way once, `start` first, in the order of `dfs_order`.
    /// `Err(NodeNotFound(start))` when `start` is not in the graph.
    pub fn traverse(&self, start: u128, arrow: &Arrow) -> (r: Result<Vec<&Node>, DeebeeError>)
        requires
            self@.contains_key(start) ==> traversable(self@, Some(arrow@), start),
        ensures
            match r {
                Ok(ns) => self@.contains_key(start) && traversal_of(self@, Some(arrow@), start, ns@),
                Err(e) => !self@.contains_key(start) && e == DeebeeError::NodeNotFound(start),
            },
    {
        self.traverse_filtered(start, Some(arrow))
    }

    /// The nodes among `ns`, in order, whose data equals `data`.
    fn select_refs<'a>(ns: &Vec<&'a Node>, data: &Value, Ghost(g): Ghost<GraphModel>, Ghost(ks): Ghost<Seq<u128>>) -> (r: Vec<&'a Node>)
        requires
            refs_are(g, ns@, ks),
        ensures
            refs_are(g, r@, matching_ids(g, ks, data@)),
    {
        let mut r: Vec<&Node> = Vec::new();
        let n = ns.len();
        let mut i: usize = 0;
        while i < n
            invariant
                n == ns@.len(),
                0 <= i <= n,
                refs_are(g, ns@, ks),
                refs_are(g, r@, matching_ids(g, ks.subrange(0, i as int), data@)),
            decreases n - i,
        {
            let node = ns[i];
            proof {
                crate::node::lemma_node_view(node);
                assert(node@ == g[ks[i as int]]);
                let t = ks.subrange(0, i + 1);
                assert(t.subrange(0, t.len() - 1) =~= ks.subrange(0, i as int));
            }
            if values_equal(&node.data, data) {
                proof {
                    lemma_refs_push(g, r@, matching_ids(g, ks.subrange(0, i as int), data@), node, ks[i as int]);
                }
                r.push(node);
            }
            i = i + 1;
        }
        assert(ks.subrange(0, n as int) =~= ks);
        r
    }

    /// The nodes reachable from `id` through `arrow` (`id` included) whose
    /// data equals `data`, in traversal order.
    /// `Err(NodeNotFound(id))` when `id` is not in the graph.
    pub fn find_tree(&self, id: u128, data: &Value, arrow: &Arrow) -> (r: Result<Vec<&Node>, DeebeeError>)
        requires
            self@.contains_key(id) ==> traversable(self@, Some(arrow@), id),
        ensures
            match r {
                Ok(ns) => self@.contains_key(id) && tree_matches(self@, Some(arrow@), id, data@, ns@),
                Err(e) => !self@.contains_key(id) && e == DeebeeError::NodeNotFound(id),
            },
    {
        let all = match self.traverse(id, arrow) {
            Ok(ns) => ns,
            Err(e) => {
                return Err(e);
            },
        };
        let ghost ks = choose|ks: Seq<u128>| #[trigger] refs_are(self@, all@, ks) && traversal_keys(self@, Some(arrow@), id, ks);
        let r = Graph::select_refs(&all, data, Ghost(self@), Ghost(ks));
        assert(traversal_keys(self@, Some(arrow@), id, ks) && refs_are(self@, r@, matching_ids(self@, ks, data@)));
        assert(tree_matches(self@, Some(arrow@), id, data@, r@));
        Ok(r)
    }
}

// ---------------------------------------------------------------------------
// Building a graph from its nodes
// ---------------------------------------------------------------------------

/// The link from `x` to `y` through `a` has its other end: `y` is in the
/// graph and links back to `x` through the reverse of `a`.
pub open spec fn link_ok(g: GraphModel, x: u128, a: ArrowModel, y: u128) -> bool {
    g.contains_key(y) && links_to(g[y], reverse_model(a), x)
}

/// Every pair of arrow and identifier of every node has its other end.
pub open spec fn links_checked(g: GraphModel) -> bool {
    forall|x: u128, j: int|
        g.contains_key(x) && 0 <= j < flat_links(g[x].links).len() ==> link_ok(
            g,
            x,
            (#[trigger] flat_links(g[x].links)[j]).0,
            flat_links(g[x].links)[j].1,
        )
}

/// The message for a link to an identifier that is not in the graph.
pub open spec fn missing_text(y: u128) -> Seq<char> {
    "Linked ID "@ + id_text_spec(y) + " not in graph."@
}

/// The message for a link from `x` to `y` through `a` that `y` does not
/// return.
pub open spec fn one_way_text(x: u128, a: ArrowModel, y: u128) -> Seq<char> {
    "Bidirectionality of arrows not enforced: "@ + id_text_spec(x) + " links with "@ + a.0 + " (reverse "@ + a.1
        + ") to "@ + id_text_spec(y) + ", but "@ + id_text_spec(y) + " does not link to "@ + id_text_spec(x)
        + " through "@ + a.1
}

/// The message for a link from `x` to `y` through `a` that fails.
pub open spec fn link_error_text(g: GraphModel, x: u128, a: ArrowModel, y: u128) -> Seq<char> {
    if !g.contains_key(y) {
        missing_text(y)
    } else {
        one_way_text(x, a, y)
    }
}

/// The error is `InvalidCreation` with a message about one pair of arrow
/// and identifier of a node of `g` whose other end is missing.
pub open spec fn is_link_error(g: GraphModel, e: DeebeeError) -> bool {
    exists|x: u128, j: int|
        #![trigger flat_links(g[x].links)[j]]
        g.contains_key(x) && 0 <= j < flat_links(g[x].links).len() && !link_ok(
            g,
            x,
            flat_links(g[x].links)[j].0,
            flat_links(g[x].links)[j].1,
        ) && (e matches DeebeeError::InvalidCreation(m) && m@ == link_error_text(
            g,
            x,
            flat_links(g[x].links)[j].0,
            flat_links(g[x].links)[j].1,
        ))
}

/// Builds the message for a link to a missing identifier.
fn missing_message(y: u128) -> (r: String)
    ensures
        r@ == missing_text(y),
{
    let mut m = String::from_str("Linked ID ");
    let t = id_text(y);
    m.append(t.as_str());
    m.append(" not in graph.");
    m
}

/// Builds the message for a link that is not returned.
fn one_way_message(x: u128, a: &Arrow, y: u128) -> (r: String)
    ensures
        r@ == one_way_text(x, a@, y),
{
    let tx = id_text(x);
    let ty = id_text(y);
    let mut m = String::from_str("Bidirectionality of arrows not enforced: ");
    m.append(tx.as_str());
    m.append(" links with ");
    m.append(a.label.as_str());
    m.append(" (reverse ");
    m.append(a.reverse_label.as_str());
    m.append(") to ");
    m.append(ty.as_str());
    m.append(", but ");
    m.append(ty.as_str());
    m.append(" does not link to ");
    m.append(tx.as_str());
    m.append(" through ");
    m.append(a.reverse_label.as_str());
    m
}

impl Graph {
    /// Makes a graph of these nodes, each under its identifier, after
    /// checking that every link has its other end. When one does not,
    /// `Err(InvalidCreation(..))` names one such link; which one, when there
    /// are several, depends on the map's order.
    pub fn from_map(data: HashMap<u128, Node>) -> (r: Result<Graph, DeebeeError>)
        ensures
            match r {
                Ok(g) => g@ == nodes_model(data@) && links_checked(g@) && (nodes_wf(g@) ==> graph_wf(g@)),
                Err(e) => !links_checked(nodes_model(data@)) && is_link_error(nodes_model(data@), e),
            },
    {
        let g = Graph { nodes: data };
        let ghost gm = g@;
        let ks = g.ids();
        let n = ks.len();
        let mut i: usize = 0;
        while i < n
            invariant
                gm == g@,
                gm == nodes_model(data@),
                n == ks@.len(),
                0 <= i <= n,
                forall|k: u128| ks@.contains(k) <==> gm.contains_key(k),
                forall|q: int, j: int|
                    0 <= q < i && 0 <= j < flat_links(gm[ks@[q]].links).len() ==> link_ok(
                        gm,
                        ks@[q],
                        (#[trigger] flat_links(gm[ks@[q]].links)[j]).0,
                        flat_links(gm[ks@[q]].links)[j].1,
                    ),
            decreases n - i,
        {
            let x = ks[i];
            assert(ks@.contains(x));
            let node = g.get(x).unwrap();
            let pairs = node.iter();
            let ghost fl = flat_links(gm[x].links);
            let m = pairs.len();
            let mut j: usize = 0;
            while j < m
                invariant
                    gm == g@,
                    gm == nodes_model(data@),
                    gm.contains_key(x),
                    fl == flat_links(gm[x].links),
                    m == fl.len(),
                    pairs@.len() == fl.len(),
                    forall|k: int| 0 <= k < m ==> (#[trigger] pairs@[k]).0@ == fl[k].0 && pairs@[k].1 == fl[k].1,
                    0 <= j <= m,
                    forall|k: int| 0 <= k < j ==> link_ok(gm, x, (#[trigger] fl[k]).0, fl[k].1),
                decreases m - j,
            {
                let (a, y) = pairs[j];
                match g.get(y) {
                    None => {
                        let msg = missing_message(y);
                        let e = DeebeeError::InvalidCreation(msg);
                        assert(!link_ok(gm, x, fl[j as int].0, fl[j as int].1));
                        assert(is_link_error(gm, e));
                        assert(!links_checked(gm));
                        return Err(e);
                    },
                    Some(other) => {
                        let back = a.reverse();
                        if !other.contains(x, &back) {
                            let msg = one_way_message(x, a, y);
                            let e = DeebeeError::InvalidCreation(msg);
                            assert(!link_ok(gm, x, fl[j as int].0, fl[j as int].1));
                            assert(is_link_error(gm, e));
                            assert(!links_checked(gm));
                            return Err(e);
                        }
                    },
                }
                j = j + 1;
            }
            i = i + 1;
        }
        proof {
            assert forall|x: u128, j: int|
                gm.contains_key(x) && 0 <= j < flat_links(gm[x].links).len() implies link_ok(
                gm,
                x,
                (#[trigger] flat_links(gm[x].links)[j]).0,
                flat_links(gm[x].links)[j].1,
            ) by {
                assert(ks@.contains(x));
                let q = choose|q: int| 0 <= q < ks@.len() && ks@[q] == x;
                assert(flat_links(gm[ks@[q]].links)[j] == flat_links(gm[x].links)[j]);
            }
        }
        proof {
            if nodes_wf(gm) {
                law_links_checked_bidirectional(gm);
            }
        }
        Ok(g)
    }
}

/// For well-formed nodes, the check that `from_map` makes is exactly
/// bidirectionality: every pair of arrow and identifier has its other end
/// if and only if every link is returned through the reverse arrow.
pub proof fn law_links_checked_bidirectional(g: GraphModel)
    requires
        nodes_wf(g),
    ensures
        links_checked(g) <==> bidirectional(g),
{
    if bidirectional(g) {
        assert forall|x: u128, j: int|
            g.contains_key(x) && 0 <= j < flat_links(g[x].links).len() implies link_ok(
            g,
            x,
            (#[trigger] flat_links(g[x].links)[j]).0,
            flat_links(g[x].links)[j].1,
        ) by {
            let fl = flat_links(g[x].links);
            crate::node::lemma_flat_links_linked(g[x], j);
            assert(linked(g, x, fl[j].0, fl[j].1));
            assert(linked(g, fl[j].1, reverse_model(fl[j].0), x));
        }
    }
    if links_checked(g) {
        assert forall|x: u128, a: ArrowModel, y: u128| #[trigger] linked(g, x, a, y) implies linked(
            g,
            y,
            reverse_model(a),
            x,
        ) by {
            let j = crate::node::lemma_links_to_flat(g[x], a, y);
            assert(link_ok(g, x, flat_links(g[x].links)[j].0, flat_links(g[x].links)[j].1));
        }
    }
}

// ---------------------------------------------------------------------------
// What the changes keep
// ---------------------------------------------------------------------------

/// Connecting two nodes of a graph whose links go both ways keeps them going
/// both ways, keeps well-formed nodes well formed, and keeps the
/// identifiers. Afterwards the links are those before, the link from `x` to
/// `y` through `a`, and its reverse from `y` to `x`.
pub proof fn law_connect(g: GraphModel, x: u128, y: u128, a: ArrowModel)
    requires
        bidirectional(g),
        g.contains_key(x),
        g.contains_key(y),
    ensures
        bidirectional(connect_model(g, x, y, a)),
        nodes_wf(g) ==> nodes_wf(connect_model(g, x, y, a)),
        connect_model(g, x, y, a).dom() == g.dom(),
        forall|u: u128, b: ArrowModel, v: u128| #[trigger]
            linked(connect_model(g, x, y, a), u, b, v) <==> linked(g, u, b, v) || (u == x && b == a && v == y) || (u
                == y && b == reverse_model(a) && v == x),
{
    let g1 = g.insert(x, with_links(g[x], add_id(g[x].links, a, y)));
    let g2 = connect_model(g, x, y, a);
    assert forall|u: u128, b: ArrowModel, v: u128| #[trigger]
        linked(g1, u, b, v) <==> linked(g, u, b, v) || (u == x && b == a && v == y) by {
        if u == x {
            crate::node::lemma_add_id_links(g[x], g1[x], a, y, b, v);
        }
    }
    if nodes_wf(g) {
        crate::node::lemma_add_id_wf(g[x], g1[x], a, y);
        assert forall|k: u128| #[trigger] g1.contains_key(k) implies node_wf(g1[k]) by {
            if k != x {
                assert(g.contains_key(k));
            }
        }
    }
    if links_to(g[x], a, y) {
        assert(linked(g, x, a, y));
        assert(linked(g, y, reverse_model(a), x));
        assert(g2 == g1);
    } else {
        assert(g1.contains_key(y));
        assert forall|u: u128, b: ArrowModel, v: u128| #[trigger]
            linked(g2, u, b, v) <==> linked(g1, u, b, v) || (u == y && b == reverse_model(a) && v == x) by {
            if u == y {
                crate::node::lemma_add_id_links(g1[y], g2[y], reverse_model(a), x, b, v);
            }
        }
        if nodes_wf(g) {
            crate::node::lemma_add_id_wf(g1[y], g2[y], reverse_model(a), x);
            assert forall|k: u128| #[trigger] g2.contains_key(k) implies node_wf(g2[k]) by {
                if k != y {
                    assert(g1.contains_key(k));
                }
            }
        }
    }
    assert(g2.dom() =~= g.dom());
    assert forall|u: u128, b: ArrowModel, v: u128| #[trigger] linked(g2, u, b, v) implies linked(
        g2,
        v,
        reverse_model(b),
        u,
    ) by {
        if linked(g, u, b, v) {
            assert(linked(g, v, reverse_model(b), u));
        }
    }
}

/// Disconnecting a link of a graph whose links go both ways keeps them
/// going both ways, keeps well-formed nodes well formed, and keeps the
/// identifiers. Afterwards the links are those before, without the link
/// from `x` to `y` through `a` and without its reverse.
pub proof fn law_disconnect(g: GraphModel, x: u128, y: u128, a: ArrowModel)
    requires
        bidirectional(g),
        g.contains_key(x),
    ensures
        links_to(g[x], a, y) ==> g.contains_key(y) && has_arrow(g[y], reverse_model(a)),
        bidirectional(disconnect_model(g, x, y, a)),
        nodes_wf(g) ==> nodes_wf(disconnect_model(g, x, y, a)),
        disconnect_model(g, x, y, a).dom() == g.dom(),
        forall|u: u128, b: ArrowModel, v: u128| #[trigger]
            linked(disconnect_model(g, x, y, a), u, b, v) <==> linked(g, u, b, v) && !(u == x && b == a && v == y)
                && !(u == y && b == reverse_model(a) && v == x),
{
    let g2 = disconnect_model(g, x, y, a);
    if !links_to(g[x], a, y) {
        assert forall|u: u128, b: ArrowModel, v: u128| #[trigger] linked(g2, u, b, v) implies !(u == y && b
            == reverse_model(a) && v == x) by {
            if u == y && b == reverse_model(a) && v == x {
                assert(linked(g, x, reverse_model(reverse_model(a)), y));
            }
        }
    } else {
        assert(linked(g, x, a, y));
        assert(linked(g, y, reverse_model(a), x));
        let g1 = g.insert(x, with_links(g[x], remove_id(g[x].links, a, y)));
        assert forall|u: u128, b: ArrowModel, v: u128| #[trigger]
            linked(g1, u, b, v) <==> linked(g, u, b, v) && !(u == x && b == a && v == y) by {
            if u == x {
                crate::node::lemma_remove_id_links(g[x], g1[x], a, y, b, v);
            }
        }
        crate::node::lemma_remove_id_links(g[x], g1[x], a, y, a, y);
        if nodes_wf(g) {
            assert forall|k: u128| #[trigger] g1.contains_key(k) implies node_wf(g1[k]) by {
                if k != x {
                    assert(g.contains_key(k));
                }
            }
        }
        assert(g1.contains_key(y));
        crate::node::lemma_remove_id_links(g1[y], g2[y], reverse_model(a), x, a, y);
        assert forall|u: u128, b: ArrowModel, v: u128| #[trigger]
            linked(g2, u, b, v) <==> linked(g1, u, b, v) && !(u == y && b == reverse_model(a) && v == x) by {
            if u == y {
                crate::node::lemma_remove_id_links(g1[y], g2[y], reverse_model(a), x, b, v);
            }
        }
        if nodes_wf(g) {
            assert forall|k: u128| #[trigger] g2.contains_key(k) implies node_wf(g2[k]) by {
                if k != y {
                    assert(g1.contains_key(k));
                }
            }
        }
        assert(g2.dom() =~= g.dom());
    }
    assert forall|u: u128, b: ArrowModel, v: u128| #[trigger] linked(g2, u, b, v) implies linked(
        g2,
        v,
        reverse_model(b),
        u,
    ) by {
        assert(linked(g, v, reverse_model(b), u));
    }
}

/// The neighbours' links after detaching: those of `g`, without the links
/// to `id` through the reverse of each pair of `fl`. Detaching keeps the
/// nodes well formed.
proof fn lemma_detach_links(g: GraphModel, id: u128, fl: Seq<(ArrowModel, u128)>)
    requires
        nodes_wf(g),
        !g.contains_key(id),
        forall|k: int| 0 <= k < fl.len() ==> (#[trigger] fl[k]).1 != id ==> g.contains_key(fl[k].1),
    ensures
        nodes_wf(detach(g, id, fl)),
        detach(g, id, fl).dom() == g.dom(),
        forall|u: u128, b: ArrowModel, v: u128| #[trigger]
            linked(detach(g, id, fl), u, b, v) <==> linked(g, u, b, v) && !(v == id && fl.contains(
                (reverse_model(b), u),
            )),
    decreases fl.len(),
{
    if fl.len() > 0 {
        let pre = fl.subrange(0, fl.len() - 1);
        assert forall|k: int| 0 <= k < pre.len() && (#[trigger] pre[k]).1 != id implies g.contains_key(pre[k].1) by {
            assert(pre[k] == fl[k]);
        }
        lemma_detach_links(g, id, pre);
        let g1 = detach(g, id, pre);
        let g2 = detach(g, id, fl);
        let a = fl[fl.len() - 1].0;
        let y = fl[fl.len() - 1].1;
        if y != id {
            assert(g1.contains_key(y));
            crate::node::lemma_remove_id_links(g1[y], g2[y], reverse_model(a), id, a, id);
            assert forall|k: u128| #[trigger] g2.contains_key(k) implies node_wf(g2[k]) by {
                if k != y {
                    assert(g1.contains_key(k));
                }
            }
        }
        assert(g2.dom() =~= g.dom());
        assert forall|u: u128, b: ArrowModel, v: u128| #[trigger]
            linked(g2, u, b, v) <==> linked(g, u, b, v) && !(v == id && fl.contains((reverse_model(b), u))) by {
            assert(linked(g1, u, b, v) <==> linked(g, u, b, v) && !(v == id && pre.contains((reverse_model(b), u))));
            if u != y || y == id {
                assert(g2[u] == g1[u]);
            }
            if u == y && y != id {
                crate::node::lemma_remove_id_links(g1[y], g2[y], reverse_model(a), id, b, v);
            }
            assert(fl.contains((reverse_model(b), u)) <==> pre.contains((reverse_model(b), u)) || (reverse_model(b) == a
                && u == y)) by {
                if fl.contains((reverse_model(b), u)) {
                    let k = choose|k: int| 0 <= k < fl.len() && fl[k] == (reverse_model(b), u);
                    if k < pre.len() {
                        assert(pre[k] == fl[k]);
                    }
                }
                if pre.contains((reverse_model(b), u)) {
                    let k = choose|k: int| 0 <= k < pre.len() && pre[k] == (reverse_model(b), u);
                    assert(fl[k] == pre[k]);
                }
                if reverse_model(b) == a && u == y {
                    assert(fl[fl.len() - 1] == (reverse_model(b), u));
                }
            }
            if reverse_model(b) == a {
                assert(b == reverse_model(a));
            }
        }
    } else {
        assert forall|u: u128, b: ArrowModel, v: u128| #[trigger] linked(detach(g, id, fl), u, b, v) <==> linked(
            g,
            u,
            b,
            v,
        ) && !(v == id && fl.contains((reverse_model(b), u))) by {}
    }
}

/// Removing a node of a well-formed graph goes through without a missing
/// node (`can_remove` holds), keeps the graph well formed, and leaves the
/// other nodes with their links, less those to the removed node.
pub proof fn law_remove(g: GraphModel, id: u128)
    requires
        graph_wf(g),
        g.contains_key(id),
    ensures
        can_remove(g, id),
        graph_wf(detach(g.remove(id), id, flat_links(g[id].links))),
        detach(g.remove(id), id, flat_links(g[id].links)).dom() == g.dom().remove(id),
        forall|u: u128, b: ArrowModel, v: u128| #[trigger]
            linked(detach(g.remove(id), id, flat_links(g[id].links)), u, b, v) <==> linked(g, u, b, v) && u != id && v
                != id,
{
    let fl = flat_links(g[id].links);
    let g0 = g.remove(id);
    assert forall|k: int| 0 <= k < fl.len() && (#[trigger] fl[k]).1 != id implies g0.contains_key(fl[k].1)
        && has_arrow(g[fl[k].1], reverse_model(fl[k].0)) by {
        crate::node::lemma_flat_links_linked(g[id], k);
        assert(linked(g, id, fl[k].0, fl[k].1));
        assert(linked(g, fl[k].1, reverse_model(fl[k].0), id));
    }
    assert(can_remove(g, id));
    assert forall|k: u128| #[trigger] g0.contains_key(k) implies node_wf(g0[k]) by {
        assert(g.contains_key(k));
    }
    lemma_detach_links(g0, id, fl);
    let d = detach(g0, id, fl);
    assert(d.dom() =~= g.dom().remove(id));
    assert forall|u: u128, b: ArrowModel, v: u128| #[trigger] linked(d, u, b, v) <==> linked(g, u, b, v) && u != id
        && v != id by {
        assert(linked(g0, u, b, v) <==> linked(g, u, b, v) && u != id);
        if linked(g, u, b, v) && u != id && v == id {
            assert(linked(g, id, reverse_model(b), u));
            let j = crate::node::lemma_links_to_flat(g[id], reverse_model(b), u);
            assert(fl[j] == (reverse_model(b), u));
            assert(fl.contains((reverse_model(b), u)));
        }
    }
    assert forall|u: u128, b: ArrowModel, v: u128| #[trigger] linked(d, u, b, v) implies linked(
        d,
        v,
        reverse_model(b),
        u,
    ) by {
        assert(linked(g, v, reverse_model(b), u));
    }
}

/// Adding a node under a fresh identifier, linked to nothing, keeps a graph
/// well formed.
pub proof fn law_add_fresh(g: GraphModel, n: NodeModel)
    requires
        graph_wf(g),
        !g.contains_key(n.id),
        n.links.len() == 0,
    ensures
        graph_wf(g.insert(n.id, n)),
{
    let g2 = g.insert(n.id, n);
    assert forall|k: u128| #[trigger] g2.contains_key(k) implies node_wf(g2[k]) by {
        if k != n.id {
            assert(g.contains_key(k));
        }
    }
    assert forall|x: u128, a: ArrowModel, y: u128| #[trigger] linked(g2, x, a, y) implies linked(g2, y, reverse_model(a), x) by {
        if x == n.id {
            assert(crate::node::arrow_pos(n.links, a) is None);
        } else {
            assert(linked(g, x, a, y));
            assert(linked(g, y, reverse_model(a), x));
        }
    }
}

impl TryFrom<HashMap<u128, Node>> for Graph {
    type Error = DeebeeError;

    /// Makes a graph of these nodes, as `from_map` does.
    fn try_from(data: HashMap<u128, Node>) -> (r: Result<Graph, DeebeeError>)
        ensures
            match r {
                Ok(g) => g@ == nodes_model(data@) && links_checked(g@) && (nodes_wf(g@) ==> graph_wf(g@)),
                Err(e) => !links_checked(nodes_model(data@)) && is_link_error(nodes_model(data@), e),
            },
    {
        Graph::from_map(data)
    }
}

/// Which link an error names depends on the map's order, so what
/// `try_from` returns is not a function of its argument: the generic
/// specification is not claimed, and `try_from`'s own `ensures` say what it
/// returns.
impl vstd::std_specs::convert::TryFromSpecImpl<HashMap<u128, Node>> for Graph {
    open spec fn obeys_try_from_spec() -> bool {
        false
    }

    closed spec fn try_from_spec(v: HashMap<u128, Node>) -> Result<Graph, DeebeeError> {
        if links_checked(nodes_model(v@)) {
            Ok(Graph { nodes: v })
        } else {
            Err(arbitrary())
        }
    }
}

impl Default for Graph {
    fn default() -> (r: Graph)
        ensures
            r@ == Map::<u128, NodeModel>::empty(),
    {
        Graph::new()
    }
}

/// Connecting two nodes of a graph whose links go both ways a second time
/// changes nothing.
pub proof fn law_connect_idempotent(g: GraphModel, x: u128, y: u128, a: ArrowModel)
    requires
        bidirectional(g),
        g.contains_key(x),
        g.contains_key(y),
    ensures
        connect_model(connect_model(g, x, y, a), x, y, a) == connect_model(g, x, y, a),
{
    let h = connect_model(g, x, y, a);
    law_connect(g, x, y, a);
    assert(linked(h, x, a, y));
    crate::node::lemma_arrow_pos(h[x].links, a);
    assert(add_id(h[x].links, a, y) == h[x].links);
    assert(with_links(h[x], h[x].links) == h[x]);
    assert(h.insert(x, h[x]) =~= h);
}

/// The graph with an entry, possibly empty, for arrow `a` on node `x`.
pub open spec fn with_entry(g: GraphModel, x: u128, a: ArrowModel) -> GraphModel {
    g.insert(x, with_links(g[x], with_arrow(g[x].links, a)))
}

/// Disconnecting undoes connecting: in a graph whose links go both ways,
/// where `x` does not link to `y` through `a`, connecting them and then
/// disconnecting them gives the graph back, but for the entries for `a` on
/// `x` and for its reverse on `y`, which stay (empty if they were made).
/// Every node keeps the links it had.
pub proof fn law_disconnect_undoes_connect(g: GraphModel, x: u128, y: u128, a: ArrowModel)
    requires
        bidirectional(g),
        g.contains_key(x),
        g.contains_key(y),
        !links_to(g[x], a, y),
    ensures
        disconnect_model(connect_model(g, x, y, a), x, y, a) == with_entry(with_entry(g, x, a), y, reverse_model(a)),
        disconnect_model(connect_model(g, x, y, a), x, y, a).dom() == g.dom(),
        forall|u: u128, b: ArrowModel, v: u128| #[trigger]
            linked(disconnect_model(connect_model(g, x, y, a), x, y, a), u, b, v) <==> linked(g, u, b, v),
        graph_wf(g) ==> graph_wf(disconnect_model(connect_model(g, x, y, a), x, y, a)),
{
    let ra = reverse_model(a);
    let c = connect_model(g, x, y, a);
    let d = disconnect_model(c, x, y, a);
    let e1 = with_entry(g, x, a);
    let e2 = with_entry(e1, y, ra);
    assert(!links_to(g[y], ra, x)) by {
        if links_to(g[y], ra, x) {
            assert(linked(g, y, ra, x));
            assert(linked(g, x, reverse_model(ra), y));
        }
    }
    let g1 = g.insert(x, with_links(g[x], add_id(g[x].links, a, y)));
    crate::node::lemma_add_id_links(g[x], g1[x], a, y, a, y);
    crate::node::lemma_remove_add(g[x], a, y);
    if x != y {
        assert(c == g1.insert(y, with_links(g[y], add_id(g[y].links, ra, x))));
        assert(links_to(c[x], a, y));
        crate::node::lemma_remove_add(g[y], ra, x);
        assert(d =~= e2);
    } else {
        let l1 = add_id(g[x].links, a, x);
        let l2 = add_id(l1, ra, x);
        let w1 = with_arrow(g[x].links, a);
        crate::node::lemma_add_id_links(g1[x], c[x], ra, x, a, x);
        assert(links_to(c[x], a, x));
        let n1 = with_links(g[x], w1);
        crate::node::lemma_with_arrow_links(g[x], n1, a, a);
        crate::node::lemma_with_arrow_links(g[x], n1, a, ra);
        if a == ra {
            crate::node::lemma_add_present(g1[x], a, x);
            assert(l2 == l1);
            crate::node::lemma_remove_absent(n1, a, x);
            crate::node::lemma_arrow_pos(w1, a);
            crate::node::lemma_arrow_pos(g[x].links, a);
            crate::node::lemma_arrow_pos_push(g[x].links, (a, Seq::empty()), a);
            assert(with_arrow(w1, a) == w1);
        } else {
            crate::node::lemma_add_remove_commute(l1, ra, x, a, x);
            crate::node::lemma_remove_add(n1, ra, x);
        }
        assert(d =~= e2);
    }
    assert(e2.dom() =~= g.dom());
    let n1x = with_links(g[x], with_arrow(g[x].links, a));
    assert forall|b: ArrowModel| #[trigger] linked_ids_of(e1, x, b) == linked_ids_of(g, x, b) by {
        crate::node::lemma_with_arrow_links(g[x], n1x, a, b);
    }
    assert forall|b: ArrowModel| #[trigger] linked_ids_of(e2, y, b) == linked_ids_of(e1, y, b) by {
        crate::node::lemma_with_arrow_links(e1[y], e2[y], ra, b);
    }
    assert forall|u: u128, b: ArrowModel, v: u128| #[trigger] linked(d, u, b, v) <==> linked(g, u, b, v) by {
        assert(linked_ids_of(e1, x, b) == linked_ids_of(g, x, b));
        assert(linked_ids_of(e2, y, b) == linked_ids_of(e1, y, b));
        if u != x && u != y {
            assert(d[u] == g[u]);
        }
    }
    if graph_wf(g) {
        crate::node::lemma_with_arrow_links(g[x], n1x, a, a);
        crate::node::lemma_with_arrow_links(e1[y], e2[y], ra, ra);
        assert forall|k: u128| #[trigger] d.contains_key(k) implies node_wf(d[k]) by {
            assert(g.contains_key(k));
            if k == y {
                assert(node_wf(e1[y]));
            }
        }
        assert forall|u: u128, b: ArrowModel, v: u128| #[trigger] linked(d, u, b, v) implies linked(d, v, reverse_model(b), u) by {
            assert(linked(g, v, reverse_model(b), u));
        }
    }
}

/// The identifiers that node `x` of the graph links to through `b`.
pub open spec fn linked_ids_of(g: GraphModel, x: u128, b: ArrowModel) -> Seq<u128> {
    crate::node::linked_ids(g[x], b)
}

} // verus!
