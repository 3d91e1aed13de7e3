//! Nodes: an identifier, a value, and labelled links to other nodes.
use vstd::prelude::*;
use crate::arrow::{Arrow, ArrowModel};
use crate::value::{Value, ValueModel, model_eq, values_equal};
use crate::ids::{new_id, pow16};

verus! {

/// A node: its identifier, its data, and, for each arrow, the identifiers
/// of the nodes it links to through that arrow.
#[derive(Debug)]
pub struct Node {
    pub id: u128,
    pub data: Value,
    pub(crate) linked: Vec<(Arrow, Vec<u128>)>,
}

/// The mathematical value of a node: its links are a sequence of arrows,
/// each with the sequence of linked identifiers, in insertion order.
pub struct NodeModel {
    pub id: u128,
    pub data: ValueModel,
    pub links: Seq<(ArrowModel, Seq<u128>)>,
}

/// The links of a node as a sequence of models.
pub open spec fn links_model(ls: Seq<(Arrow, Vec<u128>)>) -> Seq<(ArrowModel, Seq<u128>)> {
    Seq::new(ls.len(), |k: int| (ls[k].0@, ls[k].1@))
}

impl View for Node {
    type V = NodeModel;

    closed spec fn view(&self) -> NodeModel {
        NodeModel { id: self.id, data: self.data@, links: links_model(self.linked@) }
    }
}

/// The view's identifier and data are the node's.
pub(crate) proof fn lemma_node_view(n: &Node)
    ensures
        n@.id == n.id,
        n@.data == n.data@,
        n@.links == links_model(n.linked@),
{
}

/// The position of the entry for arrow `a`, if any.
pub open spec fn arrow_pos(ls: Seq<(ArrowModel, Seq<u128>)>, a: ArrowModel) -> Option<int>
    decreases ls.len(),
{
    if ls.len() == 0 {
        None
    } else if ls[0].0 == a {
        Some(0)
    } else {
        match arrow_pos(ls.drop_first(), a) {
            Some(p) => Some(p + 1),
            None => None,
        }
    }
}

/// The identifiers linked through arrow `a` (empty when the arrow has no
/// entry).
pub open spec fn linked_ids(n: NodeModel, a: ArrowModel) -> Seq<u128> {
    match arrow_pos(n.links, a) {
        Some(p) => n.links[p].1,
        None => Seq::empty(),
    }
}

/// The node has an entry (possibly empty) for arrow `a`.
pub open spec fn has_arrow(n: NodeModel, a: ArrowModel) -> bool {
    arrow_pos(n.links, a) is Some
}

/// The node links to `id` through arrow `a`.
pub open spec fn links_to(n: NodeModel, a: ArrowModel, id: u128) -> bool {
    linked_ids(n, a).contains(id)
}

/// The node's entries have distinct arrows, and each lists an identifier at
/// most once.
pub open spec fn node_wf(n: NodeModel) -> bool {
    &&& forall|i: int, j: int| 0 <= i < j < n.links.len() ==> n.links[i].0 != n.links[j].0
    &&& forall|i: int| 0 <= i < n.links.len() ==> (#[trigger] n.links[i]).1.no_duplicates()
}

/// The number of linked identifiers over all arrows.
pub open spec fn link_count(ls: Seq<(ArrowModel, Seq<u128>)>) -> int
    decreases ls.len(),
{
    if ls.len() == 0 {
        0
    } else {
        link_count(ls.subrange(0, ls.len() - 1)) + ls[ls.len() - 1].1.len()
    }
}

/// The first entry for an arrow is at `arrow_pos`, and no earlier entry has
/// that arrow.
pub proof fn lemma_arrow_pos(ls: Seq<(ArrowModel, Seq<u128>)>, a: ArrowModel)
    ensures
        match arrow_pos(ls, a) {
            Some(p) => 0 <= p < ls.len() && ls[p].0 == a && forall|j: int| 0 <= j < p ==> ls[j].0 != a,
            None => forall|j: int| 0 <= j < ls.len() ==> ls[j].0 != a,
        },
    decreases ls.len(),
{
    if ls.len() > 0 && ls[0].0 != a {
        lemma_arrow_pos(ls.drop_first(), a);
        match arrow_pos(ls.drop_first(), a) {
            Some(p) => {
                assert forall|j: int| 0 <= j < p + 1 implies ls[j].0 != a by {
                    if j > 0 {
                        assert(ls[j] == ls.drop_first()[j - 1]);
                    }
                }
            },
            None => {
                assert forall|j: int| 0 <= j < ls.len() implies ls[j].0 != a by {
                    if j > 0 {
                        assert(ls[j] == ls.drop_first()[j - 1]);
                    }
                }
            },
        }
    }
}

/// An entry at `i` whose arrow occurs nowhere before it is the one found.
pub proof fn lemma_arrow_pos_at(ls: Seq<(ArrowModel, Seq<u128>)>, i: int)
    requires
        0 <= i < ls.len(),
        forall|j: int| 0 <= j < i ==> ls[j].0 != ls[i].0,
    ensures
        arrow_pos(ls, ls[i].0) == Some(i),
{
    lemma_arrow_pos(ls, ls[i].0);
    match arrow_pos(ls, ls[i].0) {
        Some(p) => {
            if p < i {
            } else if p > i {
                assert(ls[i].0 != ls[i].0);
            }
        },
        None => {
            assert(ls[i].0 != ls[i].0);
        },
    }
}


/// `s` without any occurrence of `x`, the other elements in order.
pub open spec fn without(s: Seq<u128>, x: u128) -> Seq<u128>
    decreases s.len(),
{
    if s.len() == 0 {
        Seq::empty()
    } else if s.last() == x {
        without(s.drop_last(), x)
    } else {
        without(s.drop_last(), x).push(s.last())
    }
}

/// Removing `x` leaves exactly the other elements, keeps a sequence without
/// duplicates without duplicates, and leaves a sequence without `x` as it
/// is.
pub proof fn lemma_without(s: Seq<u128>, x: u128)
    ensures
        forall|z: u128| #[trigger] without(s, x).contains(z) <==> s.contains(z) && z != x,
        s.no_duplicates() ==> without(s, x).no_duplicates(),
        !s.contains(x) ==> without(s, x) == s,
    decreases s.len(),
{
    if s.len() > 0 {
        let pre = s.drop_last();
        lemma_without(pre, x);
        let r = without(pre, x);
        assert forall|z: u128| #[trigger] s.contains(z) <==> pre.contains(z) || z == s.last() by {
            if s.contains(z) {
                let k = choose|k: int| 0 <= k < s.len() && s[k] == z;
                if k < pre.len() {
                    assert(pre[k] == z);
                }
            }
            if pre.contains(z) {
                let k = choose|k: int| 0 <= k < pre.len() && pre[k] == z;
                assert(s[k] == z);
            }
            if z == s.last() {
                assert(s[s.len() - 1] == z);
            }
        }
        if s.last() != x {
            let t = r.push(s.last());
            assert forall|z: u128| #[trigger] t.contains(z) <==> r.contains(z) || z == s.last() by {
                if t.contains(z) {
                    let k = choose|k: int| 0 <= k < t.len() && t[k] == z;
                    if k < r.len() {
                        assert(r[k] == z);
                    }
                }
                if r.contains(z) {
                    let k = choose|k: int| 0 <= k < r.len() && r[k] == z;
                    assert(t[k] == z);
                }
                if z == s.last() {
                    assert(t[r.len() as int] == z);
                }
            }
            if s.no_duplicates() {
                assert(pre.no_duplicates()) by {
                    assert forall|i: int, j: int| 0 <= i < j < pre.len() implies pre[i] != pre[j] by {
                        assert(pre[i] == s[i] && pre[j] == s[j]);
                    }
                }
                assert(!pre.contains(s.last())) by {
                    if pre.contains(s.last()) {
                        let k = choose|k: int| 0 <= k < pre.len() && pre[k] == s.last();
                        assert(s[k] == s[s.len() - 1]);
                    }
                }
                assert forall|i: int, j: int| 0 <= i < j < t.len() implies t[i] != t[j] by {
                    if j == r.len() {
                        assert(r.contains(r[i]));
                    } else {
                        assert(t[i] == r[i] && t[j] == r[j]);
                    }
                }
            }
            if !s.contains(x) {
                assert(pre.push(s.last()) =~= s);
            }
        } else {
            if s.no_duplicates() {
                assert(pre.no_duplicates()) by {
                    assert forall|i: int, j: int| 0 <= i < j < pre.len() implies pre[i] != pre[j] by {
                        assert(pre[i] == s[i] && pre[j] == s[j]);
                    }
                }
            }
            assert(s.contains(x)) by {
                assert(s[s.len() - 1] == x);
            }
        }
    } else {
        assert(without(s, x) =~= s);
    }
}

/// The links with an entry for arrow `a` (added, empty, at the end when
/// there is none).
pub open spec fn with_arrow(ls: Seq<(ArrowModel, Seq<u128>)>, a: ArrowModel) -> Seq<(ArrowModel, Seq<u128>)> {
    match arrow_pos(ls, a) {
        Some(_) => ls,
        None => ls.push((a, Seq::empty())),
    }
}

/// The links after linking `id` through arrow `a`: the arrow's entry is
/// made if missing, and `id` is appended to it unless already there.
pub open spec fn add_id(ls: Seq<(ArrowModel, Seq<u128>)>, a: ArrowModel, id: u128) -> Seq<(ArrowModel, Seq<u128>)> {
    let l2 = with_arrow(ls, a);
    match arrow_pos(l2, a) {
        Some(p) => if l2[p].1.contains(id) { l2 } else { l2.update(p, (a, l2[p].1.push(id))) },
        None => l2,
    }
}

/// The links after unlinking `id` from arrow `a` (the entry stays, possibly
/// empty).
pub open spec fn remove_id(ls: Seq<(ArrowModel, Seq<u128>)>, a: ArrowModel, id: u128) -> Seq<(ArrowModel, Seq<u128>)> {
    match arrow_pos(ls, a) {
        Some(p) => ls.update(p, (a, without(ls[p].1, id))),
        None => ls,
    }
}

/// The pairs of arrow and linked identifier, entry by entry.
pub open spec fn flat_links(ls: Seq<(ArrowModel, Seq<u128>)>) -> Seq<(ArrowModel, u128)>
    decreases ls.len(),
{
    if ls.len() == 0 {
        Seq::empty()
    } else {
        let last = ls[ls.len() - 1];
        flat_links(ls.subrange(0, ls.len() - 1)) + Seq::new(last.1.len(), |k: int| (last.0, last.1[k]))
    }
}

impl Node {
    /// Creates a node with the data and a fresh random identifier, linked to
    /// nothing.
    pub fn new(data: Value) -> (r: Node)
        ensures
            r@.data == data@,
            r@.links == Seq::<(ArrowModel, Seq<u128>)>::empty(),
            (r@.id as int / pow16(19)) % 16 == 4,
            (r@.id as int / 0x4000000000000000) % 4 == 2,
    {
        Node::with_id(data, new_id())
    }

    /// Creates a node with the data and the identifier, linked to nothing.
    pub fn with_id(data: Value, id: u128) -> (r: Node)
        ensures
            r@ == (NodeModel { id, data: data@, links: Seq::empty() }),
    {
        let r = Node { id, data, linked: Vec::new() };
        assert(r@.links =~= Seq::<(ArrowModel, Seq<u128>)>::empty());
        r
    }

    /// Replaces the node's data.
    pub fn set(&mut self, data: Value)
        ensures
            final(self)@ == (NodeModel { data: data@, ..old(self)@ }),
    {
        self.data = data;
    }

    /// The position of the entry for this arrow.
    fn arrow_position(&self, arrow: &Arrow) -> (r: Option<usize>)
        ensures
            match r {
                Some(p) => arrow_pos(self@.links, arrow@) == Some(p as int),
                None => arrow_pos(self@.links, arrow@) is None,
            },
    {
        proof {
            lemma_arrow_pos(self@.links, arrow@);
        }
        let n = self.linked.len();
        let mut i: usize = 0;
        while i < n
            invariant
                n == self@.links.len(),
                self@.links == links_model(self.linked@),
                0 <= i <= n,
                forall|j: int| 0 <= j < i ==> self@.links[j].0 != arrow@,
            decreases n - i,
        {
            if self.linked[i].0.same(arrow) {
                proof {
                    lemma_arrow_pos_at(self@.links, i as int);
                }
                return Some(i);
            }
            i = i + 1;
        }
        None
    }

    /// The identifiers linked through this arrow, if the node has an entry
    /// for it.
    pub fn get(&self, arrow: &Arrow) -> (r: Option<&Vec<u128>>)
        ensures
            match r {
                Some(ids) => has_arrow(self@, arrow@) && ids@ == linked_ids(self@, arrow@),
                None => !has_arrow(self@, arrow@),
            },
    {
        proof {
            lemma_arrow_pos(self@.links, arrow@);
        }
        match self.arrow_position(arrow) {
            Some(p) => {
                assert(self@.links[p as int] == (self.linked@[p as int].0@, self.linked@[p as int].1@));
                Some(&self.linked[p].1)
            },
            None => None,
        }
    }

    /// Returns `true` if the node links to `id` through this arrow.
    pub fn contains(&self, id: u128, arrow: &Arrow) -> (r: bool)
        ensures
            r == links_to(self@, arrow@, id),
    {
        match self.get(arrow) {
            Some(ids) => {
                let n = ids.len();
                let mut i: usize = 0;
                while i < n
                    invariant
                        n == ids@.len(),
                        ids@ == linked_ids(self@, arrow@),
                        0 <= i <= n,
                        forall|j: int| 0 <= j < i ==> ids@[j] != id,
                    decreases n - i,
                {
                    if ids[i] == id {
                        assert(linked_ids(self@, arrow@)[i as int] == id);
                        return true;
                    }
                    i = i + 1;
                }
                false
            },
            None => false,
        }
    }

    /// The node's entries: each arrow with the identifiers linked through it.
    pub fn arrows(&self) -> (r: &Vec<(Arrow, Vec<u128>)>)
        ensures
            links_model(r@) == self@.links,
    {
        &self.linked
    }

    /// Every pair of arrow and linked identifier, entry by entry.
    pub fn iter(&self) -> (r: Vec<(&Arrow, u128)>)
        ensures
            r@.len() == flat_links(self@.links).len(),
            forall|k: int| 0 <= k < r@.len() ==> (#[trigger] r@[k]).0@ == flat_links(self@.links)[k].0 && r@[k].1
                == flat_links(self@.links)[k].1,
    {
        let mut r: Vec<(&Arrow, u128)> = Vec::new();
        let n = self.linked.len();
        let mut i: usize = 0;
        while i < n
            invariant
                n == self@.links.len(),
                self@.links == links_model(self.linked@),
                0 <= i <= n,
                r@.len() == flat_links(self@.links.subrange(0, i as int)).len(),
                forall|k: int| 0 <= k < r@.len() ==> (#[trigger] r@[k]).0@ == flat_links(self@.links.subrange(0, i as int))[k].0
                    && r@[k].1 == flat_links(self@.links.subrange(0, i as int))[k].1,
            decreases n - i,
        {
            let arrow = &self.linked[i].0;
            let ids = &self.linked[i].1;
            let ghost before = r@;
            let ghost prefix = flat_links(self@.links.subrange(0, i as int));
            let m = ids.len();
            let mut j: usize = 0;
            while j < m
                invariant
                    m == ids@.len(),
                    0 <= j <= m,
                    r@.len() == before.len() + j,
                    forall|k: int| 0 <= k < before.len() ==> r@[k] == before[k],
                    forall|k: int| 0 <= k < j ==> (#[trigger] r@[before.len() + k]).0 == arrow && r@[before.len() + k].1
                        == ids@[k],
                decreases m - j,
            {
                r.push((arrow, ids[j]));
                j = j + 1;
            }
            proof {
                let ls = self@.links.subrange(0, i + 1);
                assert(ls.subrange(0, ls.len() - 1) =~= self@.links.subrange(0, i as int));
                assert(ls[ls.len() - 1] == self@.links[i as int]);
                assert(self@.links[i as int] == (arrow@, ids@));
                let f = flat_links(ls);
                assert(f == prefix + Seq::new(ids@.len(), |k: int| (arrow@, ids@[k])));
                assert(prefix.len() == before.len());
                assert forall|k: int| 0 <= k < r@.len() implies (#[trigger] r@[k]).0@ == f[k].0 && r@[k].1 == f[k].1 by {
                    if k < before.len() {
                        assert(r@[k] == before[k]);
                        assert(f[k] == prefix[k]);
                    } else {
                        let q = k - before.len();
                        assert(r@[before.len() + q] == r@[k]);
                        assert(0 <= q < j);
                        assert(f[k] == (arrow@, ids@[q]));
                    }
                }
            }
            i = i + 1;
        }
        proof {
            assert(self@.links.subrange(0, n as int) =~= self@.links);
        }
        r
    }

    /// The number of linked identifiers over all arrows.
    pub fn len(&self) -> (r: usize)
        requires
            link_count(self@.links) <= usize::MAX,
        ensures
            r == link_count(self@.links),
    {
        let n = self.linked.len();
        let mut total: usize = 0;
        let mut i: usize = 0;
        while i < n
            invariant
                n == self@.links.len(),
                self@.links == links_model(self.linked@),
                link_count(self@.links) <= usize::MAX,
                0 <= i <= n,
                total == link_count(self@.links.subrange(0, i as int)),
            decreases n - i,
        {
            proof {
                let ls = self@.links.subrange(0, i + 1);
                assert(ls.subrange(0, ls.len() - 1) =~= self@.links.subrange(0, i as int));
                lemma_link_count_prefix(self@.links, i + 1);
            }
            total = total + self.linked[i].1.len();
            i = i + 1;
        }
        proof {
            assert(self@.links.subrange(0, n as int) =~= self@.links);
        }
        total
    }

    /// Returns `true` if the node has no neighbours (entries left empty by
    /// unlinking do not count).
    pub fn is_empty(&self) -> (r: bool)
        ensures
            r == (link_count(self@.links) == 0),
    {
        let n = self.linked.len();
        let mut i: usize = 0;
        while i < n
            invariant
                n == self@.links.len(),
                self@.links == links_model(self.linked@),
                0 <= i <= n,
                link_count(self@.links.subrange(0, i as int)) == 0,
            decreases n - i,
        {
            proof {
                let ls = self@.links.subrange(0, i + 1);
                assert(ls.subrange(0, ls.len() - 1) =~= self@.links.subrange(0, i as int));
                lemma_link_count_prefix(self@.links, i + 1);
            }
            if self.linked[i].1.len() > 0 {
                return false;
            }
            i = i + 1;
        }
        proof {
            assert(self@.links.subrange(0, n as int) =~= self@.links);
        }
        true
    }
}

/// The count over a prefix is at most the count over the whole.
pub proof fn lemma_link_count_prefix(ls: Seq<(ArrowModel, Seq<u128>)>, k: int)
    requires
        0 <= k <= ls.len(),
    ensures
        link_count(ls.subrange(0, k)) <= link_count(ls),
    decreases ls.len() - k,
{
    if k < ls.len() {
        lemma_link_count_prefix(ls, k + 1);
        let t = ls.subrange(0, k + 1);
        assert(t.subrange(0, t.len() - 1) =~= ls.subrange(0, k));
    } else {
        assert(ls.subrange(0, k) =~= ls);
    }
}


impl Node {
    /// Links this node to `id` through `arrow`, making the arrow's entry if
    /// missing; returns whether `id` was newly added.
    pub(crate) fn add_link(&mut self, arrow: &Arrow, id: u128) -> (inserted: bool)
        ensures
            final(self)@.id == old(self)@.id,
            final(self)@.data == old(self)@.data,
            final(self)@.links == add_id(old(self)@.links, arrow@, id),
            inserted == !links_to(old(self)@, arrow@, id),
            node_wf(old(self)@) ==> node_wf(final(self)@),
    {
        proof {
            lemma_arrow_pos(old(self)@.links, arrow@);
        }
        let p = match self.arrow_position(arrow) {
            Some(p) => p,
            None => {
                self.linked.push((arrow.clone(), Vec::new()));
                proof {
                    assert(self@.links =~= old(self)@.links.push((arrow@, Seq::empty())));
                    lemma_arrow_pos_at(self@.links, self@.links.len() - 1);
                }
                self.linked.len() - 1
            },
        };
        let ghost mid = self@.links;
        assert(mid == with_arrow(old(self)@.links, arrow@));
        assert(arrow_pos(mid, arrow@) == Some(p as int));
        assert(mid[p as int] == (self.linked@[p as int].0@, self.linked@[p as int].1@));
        assert(linked_ids(old(self)@, arrow@) == mid[p as int].1);
        if self.contains(id, arrow) {
            assert(mid[p as int].1.contains(id));
            return false;
        }
        let (a, mut ids) = self.linked.remove(p);
        ids.push(id);
        self.linked.insert(p, (a, ids));
        proof {
            assert(self@.links =~= mid.update(p as int, (arrow@, mid[p as int].1.push(id))));
            if node_wf(old(self)@) {
                assert forall|i: int, j: int| 0 <= i < j < self@.links.len() implies self@.links[i].0 != self@.links[j].0 by {
                    if i < old(self)@.links.len() && j < old(self)@.links.len() {
                    } else {
                        lemma_arrow_pos(old(self)@.links, arrow@);
                    }
                }
                assert forall|i: int| 0 <= i < self@.links.len() implies (#[trigger] self@.links[i]).1.no_duplicates() by {
                    if i == p {
                        let old_ids = mid[p as int].1;
                        assert(old_ids.no_duplicates());
                        assert(!old_ids.contains(id));
                    } else if i < old(self)@.links.len() {
                        assert(self@.links[i] == old(self)@.links[i]);
                    }
                }
            }
        }
        true
    }

    /// Unlinks `id` from `arrow`; the arrow's entry stays, possibly empty.
    pub(crate) fn remove_link(&mut self, arrow: &Arrow, id: u128)
        ensures
            final(self)@.id == old(self)@.id,
            final(self)@.data == old(self)@.data,
            final(self)@.links == remove_id(old(self)@.links, arrow@, id),
            node_wf(old(self)@) ==> node_wf(final(self)@),
    {
        proof {
            lemma_arrow_pos(old(self)@.links, arrow@);
        }
        match self.arrow_position(arrow) {
            Some(p) => {
                let (a, ids) = self.linked.remove(p);
                let ghost old_ids = ids@;
                assert(old(self)@.links[p as int] == (a@, old_ids));
                let n = ids.len();
                let mut kept: Vec<u128> = Vec::new();
                let mut k: usize = 0;
                while k < n
                    invariant
                        n == ids@.len(),
                        ids@ == old_ids,
                        0 <= k <= n,
                        kept@ == without(old_ids.subrange(0, k as int), id),
                    decreases n - k,
                {
                    proof {
                        let t = old_ids.subrange(0, k + 1);
                        assert(t.drop_last() =~= old_ids.subrange(0, k as int));
                        assert(t.last() == old_ids[k as int]);
                    }
                    if ids[k] != id {
                        kept.push(ids[k]);
                    }
                    k = k + 1;
                }
                assert(old_ids.subrange(0, n as int) =~= old_ids);
                self.linked.insert(p, (a, kept));
                proof {
                    assert(self@.links =~= old(self)@.links.update(p as int, (arrow@, without(old_ids, id))));
                    lemma_without(old_ids, id);
                    if node_wf(old(self)@) {
                        assert forall|i: int| 0 <= i < self@.links.len() implies (#[trigger] self@.links[i]).1.no_duplicates() by {
                            if i != p {
                                assert(self@.links[i] == old(self)@.links[i]);
                            }
                        }
                    }
                }
            },
            None => {},
        }
    }
}

/// Each pair of `flat_links` comes from an entry: its arrow is the entry's,
/// its identifier one of the entry's.
pub proof fn lemma_flat_links_member(ls: Seq<(ArrowModel, Seq<u128>)>, j: int) -> (w: (int, int))
    requires
        0 <= j < flat_links(ls).len(),
    ensures
        0 <= w.0 < ls.len(),
        0 <= w.1 < ls[w.0].1.len(),
        ls[w.0].0 == flat_links(ls)[j].0,
        ls[w.0].1[w.1] == flat_links(ls)[j].1,
    decreases ls.len(),
{
    let pre = ls.subrange(0, ls.len() - 1);
    let last = ls[ls.len() - 1];
    let fp = flat_links(pre);
    assert(flat_links(ls) == fp + Seq::new(last.1.len(), |k: int| (last.0, last.1[k])));
    if j < fp.len() {
        let w = lemma_flat_links_member(pre, j);
        assert(ls[w.0] == pre[w.0]);
        w
    } else {
        (ls.len() - 1, j - fp.len())
    }
}

/// In a well-formed node, each pair of `flat_links` is a link of the node.
pub proof fn lemma_flat_links_linked(n: NodeModel, j: int)
    requires
        node_wf(n),
        0 <= j < flat_links(n.links).len(),
    ensures
        links_to(n, flat_links(n.links)[j].0, flat_links(n.links)[j].1),
{
    let w = lemma_flat_links_member(n.links, j);
    lemma_arrow_pos_at(n.links, w.0);
    assert(n.links[w.0].1[w.1] == flat_links(n.links)[j].1);
}

/// Each identifier of each entry appears, with the entry's arrow, among
/// the pairs of `flat_links`.
pub proof fn lemma_flat_links_index(ls: Seq<(ArrowModel, Seq<u128>)>, i: int, k: int) -> (j: int)
    requires
        0 <= i < ls.len(),
        0 <= k < ls[i].1.len(),
    ensures
        0 <= j < flat_links(ls).len(),
        flat_links(ls)[j] == (ls[i].0, ls[i].1[k]),
    decreases ls.len(),
{
    let pre = ls.subrange(0, ls.len() - 1);
    let last = ls[ls.len() - 1];
    let fp = flat_links(pre);
    assert(flat_links(ls) == fp + Seq::new(last.1.len(), |q: int| (last.0, last.1[q])));
    if i < ls.len() - 1 {
        assert(ls[i] == pre[i]);
        lemma_flat_links_index(pre, i, k)
    } else {
        fp.len() + k
    }
}

/// Each link of a node appears among the pairs of `flat_links`.
pub proof fn lemma_links_to_flat(n: NodeModel, a: ArrowModel, y: u128) -> (j: int)
    requires
        links_to(n, a, y),
    ensures
        0 <= j < flat_links(n.links).len(),
        flat_links(n.links)[j] == (a, y),
{
    lemma_arrow_pos(n.links, a);
    let p = arrow_pos(n.links, a)->0;
    let k = choose|k: int| 0 <= k < n.links[p].1.len() && n.links[p].1[k] == y;
    lemma_flat_links_index(n.links, p, k)
}

/// Two link sequences with the same arrows at the same places find each
/// arrow at the same place.
pub proof fn lemma_arrow_pos_same_arrows(ls: Seq<(ArrowModel, Seq<u128>)>, ms: Seq<(ArrowModel, Seq<u128>)>, b: ArrowModel)
    requires
        ls.len() == ms.len(),
        forall|i: int| 0 <= i < ls.len() ==> (#[trigger] ls[i]).0 == ms[i].0,
    ensures
        arrow_pos(ls, b) == arrow_pos(ms, b),
{
    lemma_arrow_pos(ls, b);
    lemma_arrow_pos(ms, b);
    match arrow_pos(ls, b) {
        Some(p) => {
            assert(ms[p].0 == b);
            match arrow_pos(ms, b) {
                Some(q) => {
                    if q < p {
                        assert(ls[q].0 == b);
                    } else if p < q {
                        assert(ms[p].0 == b);
                    }
                },
                None => {},
            }
        },
        None => {
            match arrow_pos(ms, b) {
                Some(q) => {
                    assert(ls[q].0 == b);
                },
                None => {},
            }
        },
    }
}

/// Appending an entry finds the arrows found before at the same place, and
/// the new entry's arrow, when it was missing, at the end.
pub proof fn lemma_arrow_pos_push(ls: Seq<(ArrowModel, Seq<u128>)>, e: (ArrowModel, Seq<u128>), b: ArrowModel)
    ensures
        arrow_pos(ls.push(e), b) == (match arrow_pos(ls, b) {
            Some(p) => Some(p),
            None => if e.0 == b { Some(ls.len() as int) } else { None },
        }),
{
    let ms = ls.push(e);
    lemma_arrow_pos(ls, b);
    lemma_arrow_pos(ms, b);
    match arrow_pos(ls, b) {
        Some(p) => {
            assert(ms[p] == ls[p]);
            match arrow_pos(ms, b) {
                Some(q) => {
                    if q < p {
                        assert(ms[q] == ls[q]);
                    }
                },
                None => {},
            }
        },
        None => {
            match arrow_pos(ms, b) {
                Some(q) => {
                    if q < ls.len() {
                        assert(ms[q] == ls[q]);
                    }
                },
                None => {
                    if e.0 == b {
                        assert(ms[ls.len() as int] == e);
                    }
                },
            }
        },
    }
}

/// Linking `y` through `a` adds exactly that link.
pub proof fn lemma_add_id_links(n: NodeModel, m: NodeModel, a: ArrowModel, y: u128, b: ArrowModel, z: u128)
    requires
        m.links == add_id(n.links, a, y),
    ensures
        links_to(m, b, z) <==> links_to(n, b, z) || (b == a && z == y),
        has_arrow(n, b) ==> has_arrow(m, b),
{
    let ls = n.links;
    lemma_arrow_pos(ls, a);
    match arrow_pos(ls, a) {
        Some(p) => {
            let ids = ls[p].1;
            if !ids.contains(y) {
                let ms = ls.update(p, (a, ids.push(y)));
                assert(m.links == ms);
                lemma_arrow_pos_same_arrows(ls, ms, b);
                lemma_arrow_pos(ls, b);
                match arrow_pos(ls, b) {
                    Some(q) => {
                        if q == p {
                            assert(ms[q].1 == ids.push(y));
                            assert(ids.push(y).contains(z) <==> ids.contains(z) || z == y) by {
                                if ids.contains(z) {
                                    let k = choose|k: int| 0 <= k < ids.len() && ids[k] == z;
                                    assert(ids.push(y)[k] == z);
                                }
                                if z == y {
                                    assert(ids.push(y)[ids.len() as int] == y);
                                }
                                if ids.push(y).contains(z) {
                                    let k = choose|k: int| 0 <= k < ids.push(y).len() && ids.push(y)[k] == z;
                                    if k < ids.len() {
                                        assert(ids[k] == z);
                                    }
                                }
                            }
                        } else {
                            assert(ms[q] == ls[q]);
                            lemma_arrow_pos(ls, b);
                        }
                    },
                    None => {
                        lemma_arrow_pos(ls, b);
                    },
                }
            } else {
                assert(m.links == ls);
            }
        },
        None => {
            let l2 = ls.push((a, Seq::<u128>::empty()));
            lemma_arrow_pos_push(ls, (a, Seq::<u128>::empty()), a);
            assert(arrow_pos(l2, a) == Some(ls.len() as int));
            assert(!l2[ls.len() as int].1.contains(y));
            let ms = l2.update(ls.len() as int, (a, seq![y]));
            assert(ms =~= ls.push((a, seq![y])));
            lemma_arrow_pos_push(ls, (a, seq![y]), b);
            lemma_arrow_pos(ls, b);
            match arrow_pos(ls, b) {
                Some(q) => {
                    assert(ms[q] == ls[q]);
                },
                None => {},
            }
            if b == a {
                assert(seq![y].contains(z) <==> z == y) by {
                    if z == y {
                        assert(seq![y][0] == y);
                    }
                }
            }
        },
    }
}

/// Linking keeps a node well formed.
pub proof fn lemma_add_id_wf(n: NodeModel, m: NodeModel, a: ArrowModel, y: u128)
    requires
        node_wf(n),
        m.links == add_id(n.links, a, y),
    ensures
        node_wf(m),
{
    let ls = n.links;
    lemma_arrow_pos(ls, a);
    match arrow_pos(ls, a) {
        Some(p) => {
            let ids = ls[p].1;
            if !ids.contains(y) {
                let ms = ls.update(p, (a, ids.push(y)));
                assert(m.links == ms);
                assert forall|i: int| 0 <= i < ms.len() implies (#[trigger] ms[i]).1.no_duplicates() by {
                    if i == p {
                        assert(ids.no_duplicates());
                        assert forall|u: int, v: int| 0 <= u < v < ids.push(y).len() implies ids.push(y)[u] != ids.push(y)[v] by {
                            if v == ids.len() {
                                assert(ids[u] == ids.push(y)[u]);
                            } else {
                                assert(ids[u] == ids.push(y)[u]);
                                assert(ids[v] == ids.push(y)[v]);
                            }
                        }
                    } else {
                        assert(ms[i] == ls[i]);
                    }
                }
                assert forall|i: int, j: int| 0 <= i < j < ms.len() implies ms[i].0 != ms[j].0 by {
                    assert(ms[i].0 == ls[i].0);
                    assert(ms[j].0 == ls[j].0);
                }
            }
        },
        None => {
            let l2 = ls.push((a, Seq::<u128>::empty()));
            lemma_arrow_pos_push(ls, (a, Seq::<u128>::empty()), a);
            assert(!l2[ls.len() as int].1.contains(y));
            let ms = ls.push((a, seq![y]));
            assert(m.links =~= ms);
            assert forall|i: int| 0 <= i < ms.len() implies (#[trigger] ms[i]).1.no_duplicates() by {
                if i < ls.len() {
                    assert(ms[i] == ls[i]);
                }
            }
            assert forall|i: int, j: int| 0 <= i < j < ms.len() implies ms[i].0 != ms[j].0 by {
                if j < ls.len() {
                    assert(ms[i] == ls[i]);
                    assert(ms[j] == ls[j]);
                } else {
                    assert(ms[i] == ls[i]);
                }
            }
        },
    }
}


/// Making an entry for an arrow changes no node's linked identifiers, and
/// keeps a well-formed node well formed.
pub proof fn lemma_with_arrow_links(n: NodeModel, m: NodeModel, a: ArrowModel, b: ArrowModel)
    requires
        m.links == with_arrow(n.links, a),
    ensures
        linked_ids(m, b) == linked_ids(n, b),
        node_wf(n) ==> node_wf(m),
{
    let ls = n.links;
    lemma_arrow_pos(ls, a);
    lemma_arrow_pos(ls, b);
    lemma_arrow_pos_push(ls, (a, Seq::empty()), b);
    if arrow_pos(ls, a) is None {
        lemma_arrow_pos_push(ls, (a, Seq::empty()), a);
        let ms = ls.push((a, Seq::empty()));
        match arrow_pos(ls, b) {
            Some(p) => {
                assert(ms[p] == ls[p]);
            },
            None => {
                if a == b {
                    assert(ms[ls.len() as int] == (a, Seq::<u128>::empty()));
                    assert(linked_ids(m, b) =~= Seq::<u128>::empty());
                }
            },
        }
        if node_wf(n) {
            assert forall|i: int, j: int| 0 <= i < j < ms.len() implies ms[i].0 != ms[j].0 by {
                assert(ms[i] == ls[i]);
                if j < ls.len() {
                    assert(ms[j] == ls[j]);
                }
            }
            assert forall|i: int| 0 <= i < ms.len() implies (#[trigger] ms[i]).1.no_duplicates() by {
                if i < ls.len() {
                    assert(ms[i] == ls[i]);
                }
            }
        }
    }
}

/// Linking an identifier that is already linked changes nothing.
pub proof fn lemma_add_present(n: NodeModel, a: ArrowModel, y: u128)
    requires
        links_to(n, a, y),
    ensures
        add_id(n.links, a, y) == n.links,
{
    lemma_arrow_pos(n.links, a);
}

/// Unlinking an identifier that is not linked changes nothing.
pub proof fn lemma_remove_absent(n: NodeModel, a: ArrowModel, y: u128)
    requires
        !links_to(n, a, y),
    ensures
        remove_id(n.links, a, y) == n.links,
{
    let ls = n.links;
    lemma_arrow_pos(ls, a);
    if let Some(p) = arrow_pos(ls, a) {
        lemma_without(ls[p].1, y);
        assert(ls.update(p, (a, without(ls[p].1, y))) =~= ls);
    }
}

/// Unlinking an identifier just linked, that was not linked before, leaves
/// the links as they were, with an entry (possibly empty) for the arrow.
pub proof fn lemma_remove_add(n: NodeModel, a: ArrowModel, y: u128)
    requires
        !links_to(n, a, y),
    ensures
        remove_id(add_id(n.links, a, y), a, y) == with_arrow(n.links, a),
{
    let ls = n.links;
    let w = with_arrow(ls, a);
    lemma_arrow_pos(ls, a);
    lemma_arrow_pos_push(ls, (a, Seq::empty()), a);
    lemma_arrow_pos(w, a);
    let p = arrow_pos(w, a)->Some_0;
    let s = w[p].1;
    assert(!s.contains(y)) by {
        if arrow_pos(ls, a) is None {
            assert(w[p] == (a, Seq::<u128>::empty()));
        }
    }
    let l1 = w.update(p, (a, s.push(y)));
    assert(add_id(ls, a, y) == l1);
    lemma_arrow_pos_same_arrows(w, l1, a);
    let t = s.push(y);
    assert(t.drop_last() =~= s);
    lemma_without(s, y);
    assert(without(t, y) == s);
    assert(l1.update(p, (a, s)) =~= w);
}

/// Linking through one arrow and unlinking through another commute.
pub proof fn lemma_add_remove_commute(ls: Seq<(ArrowModel, Seq<u128>)>, b: ArrowModel, z: u128, c: ArrowModel, w: u128)
    requires
        b != c,
    ensures
        remove_id(add_id(ls, b, z), c, w) == add_id(remove_id(ls, c, w), b, z),
{
    let wb = with_arrow(ls, b);
    lemma_arrow_pos(ls, b);
    lemma_arrow_pos(ls, c);
    lemma_arrow_pos_push(ls, (b, Seq::empty()), b);
    lemma_arrow_pos_push(ls, (b, Seq::empty()), c);
    lemma_arrow_pos(wb, b);
    let p = arrow_pos(wb, b)->Some_0;
    let a1 = add_id(ls, b, z);
    assert(a1.len() == wb.len());
    assert forall|i: int| 0 <= i < wb.len() implies (#[trigger] wb[i]).0 == a1[i].0 by {}
    lemma_arrow_pos_same_arrows(wb, a1, c);
    match arrow_pos(ls, c) {
        None => {},
        Some(q) => {
            assert(wb[q] == ls[q]);
            let y = (c, without(ls[q].1, w));
            let r = ls.update(q, y);
            assert forall|i: int| 0 <= i < ls.len() implies (#[trigger] ls[i]).0 == r[i].0 by {}
            lemma_arrow_pos_same_arrows(ls, r, b);
            let wr = with_arrow(r, b);
            assert(wr =~= wb.update(q, y));
            assert forall|i: int| 0 <= i < wb.len() implies (#[trigger] wb[i]).0 == wr[i].0 by {}
            lemma_arrow_pos_same_arrows(wb, wr, b);
            assert(wr[p] == wb[p]);
            if !wb[p].1.contains(z) {
                let x = (b, wb[p].1.push(z));
                assert(a1.update(q, y) =~= wr.update(p, x));
            } else {
                assert(a1.update(q, y) =~= wr);
            }
        },
    }
}

/// Unlinking `y` from `a` removes exactly that link, keeps a well-formed
/// node well formed, and keeps the node's arrows.
pub proof fn lemma_remove_id_links(n: NodeModel, m: NodeModel, a: ArrowModel, y: u128, b: ArrowModel, z: u128)
    requires
        m.links == remove_id(n.links, a, y),
    ensures
        links_to(m, b, z) <==> links_to(n, b, z) && !(b == a && z == y),
        node_wf(n) ==> node_wf(m),
        has_arrow(n, b) ==> has_arrow(m, b),
{
    let ls = n.links;
    lemma_arrow_pos(ls, a);
    match arrow_pos(ls, a) {
        Some(p) => {
            let ids = ls[p].1;
            let ms = ls.update(p, (a, without(ids, y)));
            assert(m.links == ms);
            lemma_without(ids, y);
            lemma_arrow_pos_same_arrows(ls, ms, b);
            lemma_arrow_pos(ls, b);
            match arrow_pos(ls, b) {
                Some(q) => {
                    if q != p {
                        assert(ms[q] == ls[q]);
                    }
                },
                None => {},
            }
            if node_wf(n) {
                assert forall|i: int| 0 <= i < ms.len() implies (#[trigger] ms[i]).1.no_duplicates() by {
                    if i != p {
                        assert(ms[i] == ls[i]);
                    }
                }
                assert forall|i: int, j: int| 0 <= i < j < ms.len() implies ms[i].0 != ms[j].0 by {
                    assert(ms[i].0 == ls[i].0);
                    assert(ms[j].0 == ls[j].0);
                }
            }
        },
        None => {
            assert(m.links == ls);
        },
    }
}

/// Two nodes have the same links: the same arrows, and through each arrow
/// the same identifiers, whatever their order.
pub open spec fn same_links(a: NodeModel, b: NodeModel) -> bool {
    &&& forall|c: ArrowModel| #[trigger] has_arrow(a, c) <==> has_arrow(b, c)
    &&& forall|c: ArrowModel, z: u128| #[trigger] links_to(a, c, z) <==> links_to(b, c, z)
}

/// Equality of nodes: the same identifier, equal data, the same links.
pub open spec fn node_eq(a: NodeModel, b: NodeModel) -> bool {
    a.id == b.id && model_eq(a.data, b.data) && same_links(a, b)
}

/// Every arrow of `x` is an arrow of `y`, and every link of `x` a link of
/// `y`.
fn links_covered(x: &Node, y: &Node) -> (r: bool)
    ensures
        r == ((forall|c: ArrowModel| has_arrow(x@, c) ==> has_arrow(y@, c)) && (forall|c: ArrowModel, z: u128|
            links_to(x@, c, z) ==> links_to(y@, c, z))),
{
    let n = x.linked.len();
    let mut i: usize = 0;
    while i < n
        invariant
            n == x@.links.len(),
            x@.links == links_model(x.linked@),
            0 <= i <= n,
            forall|j: int|
                0 <= j < i ==> has_arrow(y@, #[trigger] x@.links[j].0) && forall|z: u128|
                    links_to(x@, x@.links[j].0, z) ==> links_to(y@, x@.links[j].0, z),
        decreases n - i,
    {
        let a = &x.linked[i].0;
        assert(a@ == x@.links[i as int].0);
        proof {
            lemma_arrow_pos(x@.links, a@);
        }
        let xs = match x.get(a) {
            Some(xs) => xs,
            None => {
                return false;
            },
        };
        let ys = match y.get(a) {
            Some(ys) => ys,
            None => {
                return false;
            },
        };
        let m = xs.len();
        let mut k: usize = 0;
        while k < m
            invariant
                m == xs@.len(),
                xs@ == linked_ids(x@, a@),
                ys@ == linked_ids(y@, a@),
                0 <= k <= m,
                forall|q: int| 0 <= q < k ==> ys@.contains(#[trigger] xs@[q]),
            decreases m - k,
        {
            let z = xs[k];
            let mut found = false;
            let mut q: usize = 0;
            while q < ys.len()
                invariant
                    0 <= q <= ys@.len(),
                    found == exists|w: int| 0 <= w < q && ys@[w] == z,
                decreases ys@.len() - q,
            {
                if ys[q] == z {
                    found = true;
                }
                q = q + 1;
            }
            if !found {
                assert(!ys@.contains(z));
                assert(!links_to(y@, a@, z));
                assert(links_to(x@, a@, z)) by {
                    assert(xs@[k as int] == z);
                }
                return false;
            }
            assert(ys@.contains(xs@[k as int]));
            k = k + 1;
        }
        proof {
            assert forall|z: u128| links_to(x@, a@, z) implies links_to(y@, a@, z) by {
                let q = choose|q: int| 0 <= q < xs@.len() && xs@[q] == z;
                assert(ys@.contains(xs@[q]));
            }
        }
        i = i + 1;
    }
    proof {
        assert forall|c: ArrowModel| has_arrow(x@, c) implies has_arrow(y@, c) && forall|z: u128|
            links_to(x@, c, z) ==> links_to(y@, c, z) by {
            lemma_arrow_pos(x@.links, c);
            let p = arrow_pos(x@.links, c)->0;
            assert(x@.links[p].0 == c);
        }
        assert forall|c: ArrowModel, z: u128| links_to(x@, c, z) implies links_to(y@, c, z) by {
            lemma_arrow_pos(x@.links, c);
            if arrow_pos(x@.links, c) is None {
                assert(linked_ids(x@, c) =~= Seq::<u128>::empty());
            }
        }
    }
    true
}

/// A copy of a list of identifiers.
fn copy_ids(v: &Vec<u128>) -> (r: Vec<u128>)
    ensures
        r@ == v@,
{
    let mut r: Vec<u128> = Vec::new();
    let n = v.len();
    let mut i: usize = 0;
    while i < n
        invariant
            n == v@.len(),
            0 <= i <= n,
            r@ == v@.subrange(0, i as int),
        decreases n - i,
    {
        r.push(v[i]);
        assert(r@ =~= v@.subrange(0, i + 1));
        i = i + 1;
    }
    assert(v@.subrange(0, n as int) =~= v@);
    r
}

impl Clone for Node {
    /// A copy of the node: same identifier, data and links.
    fn clone(&self) -> (r: Node)
        ensures
            r@ == self@,
    {
        let mut ls: Vec<(Arrow, Vec<u128>)> = Vec::new();
        let n = self.linked.len();
        let mut i: usize = 0;
        while i < n
            invariant
                n == self.linked@.len(),
                0 <= i <= n,
                ls@.len() == i,
                links_model(ls@) == links_model(self.linked@).subrange(0, i as int),
            decreases n - i,
        {
            let a = self.linked[i].0.clone();
            let ids = copy_ids(&self.linked[i].1);
            let ghost before = ls@;
            let ghost e = (a@, ids@);
            assert(e == links_model(self.linked@)[i as int]);
            ls.push((a, ids));
            assert(links_model(ls@) =~= links_model(before).push(e));
            assert(links_model(ls@) =~= links_model(self.linked@).subrange(0, i + 1));
            i = i + 1;
        }
        assert(links_model(self.linked@).subrange(0, n as int) =~= links_model(self.linked@));
        let r = Node { id: self.id, data: self.data.clone(), linked: ls };
        assert(r@ =~= self@);
        r
    }
}

impl PartialEq for Node {
    fn eq(&self, other: &Node) -> (r: bool) {
        self.id == other.id && values_equal(&self.data, &other.data) && links_covered(self, other) && links_covered(
            other,
            self,
        )
    }
}

impl vstd::std_specs::cmp::PartialEqSpecImpl for Node {
    open spec fn obeys_eq_spec() -> bool {
        true
    }

    open spec fn eq_spec(&self, other: &Node) -> bool {
        node_eq(self@, other@)
    }
}

} // verus!
