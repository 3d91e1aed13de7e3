//! Arrows: the labelled, directed kinds of link between two nodes.
use vstd::prelude::*;
use vstd::string::StringExecFns;

verus! {

/// A label for the link between two nodes, together with the label that the
/// same link bears when seen from the other end.
#[derive(Debug, Eq, Hash)]
pub struct Arrow {
    pub label: String,
    pub reverse_label: String,
}

/// The mathematical value of an arrow: its label and its reverse label.
pub type ArrowModel = (Seq<char>, Seq<char>);

/// The arrow that the other end of a link of arrow `a` bears.
pub open spec fn reverse_model(a: ArrowModel) -> ArrowModel {
    (a.1, a.0)
}

impl View for Arrow {
    type V = ArrowModel;

    open spec fn view(&self) -> ArrowModel {
        (self.label@, self.reverse_label@)
    }
}

impl Clone for Arrow {
    fn clone(&self) -> (r: Arrow)
        ensures
            r@ == self@,
    {
        Arrow { label: self.label.clone(), reverse_label: self.reverse_label.clone() }
    }
}

impl PartialEq for Arrow {
    fn eq(&self, other: &Self) -> (r: bool) {
        self.label == other.label && self.reverse_label == other.reverse_label
    }
}

impl vstd::std_specs::cmp::PartialEqSpecImpl for Arrow {
    open spec fn obeys_eq_spec() -> bool {
        true
    }

    open spec fn eq_spec(&self, other: &Self) -> bool {
        self@ == other@
    }
}

impl Arrow {
    /// Creates an arrow with a label and the label of the same link seen
    /// from the other end.
    pub fn new(label: &str, reverse_label: &str) -> (r: Arrow)
        ensures
            r@ == (label@, reverse_label@),
    {
        Arrow { label: String::from_str(label), reverse_label: String::from_str(reverse_label) }
    }

    /// Returns the arrow that a neighbour bears for a link of this arrow:
    /// the two labels swapped.
    pub fn reverse(&self) -> (r: Arrow)
        ensures
            r@ == reverse_model(self@),
    {
        Arrow { label: self.reverse_label.clone(), reverse_label: self.label.clone() }
    }

    /// Tests two arrows for equality of both labels.
    pub fn same(&self, other: &Arrow) -> (r: bool)
        ensures
            r == (self@ == other@),
    {
        self.label == other.label && self.reverse_label == other.reverse_label
    }

    /// The arrow from a node to its children; reversed, `PARENTS`.
    #[allow(non_snake_case)]
    pub fn CHILDREN() -> (r: Arrow)
        ensures
            r@ == ("children"@, "parents"@),
    {
        Arrow::new("children", "parents")
    }

    /// The arrow from a node to its parents; reversed, `CHILDREN`.
    #[allow(non_snake_case)]
    pub fn PARENTS() -> (r: Arrow)
        ensures
            r@ == ("parents"@, "children"@),
    {
        Arrow::new("parents", "children")
    }

    /// The arrow from a node to the nodes it points at; reversed, `RECEIVING`.
    #[allow(non_snake_case)]
    pub fn POINTING() -> (r: Arrow)
        ensures
            r@ == ("pointing"@, "receiving"@),
    {
        Arrow::new("pointing", "receiving")
    }

    /// The arrow from a node to the nodes pointing at it; reversed, `POINTING`.
    #[allow(non_snake_case)]
    pub fn RECEIVING() -> (r: Arrow)
        ensures
            r@ == ("receiving"@, "pointing"@),
    {
        Arrow::new("receiving", "pointing")
    }

    /// The symmetric arrow: its reverse is itself.
    #[allow(non_snake_case)]
    pub fn LINKED() -> (r: Arrow)
        ensures
            r@ == ("linked"@, "linked"@),
    {
        Arrow::new("linked", "linked")
    }
}

/// Reversing an arrow twice gives back the same arrow.
pub proof fn law_reverse_involutive(a: ArrowModel)
    ensures
        reverse_model(reverse_model(a)) == a,
{
}

} // verus!
