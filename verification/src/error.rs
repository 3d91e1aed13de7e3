use vstd::prelude::*;
use vstd::string::StringExecFns;
use crate::ids::{id_text, id_text_spec};
use crate::text::str_eq;

verus! {

/// The error returned by the fallible operations of the library.
#[derive(Debug, Clone)]
pub enum DeebeeError {
    /// The node with this ID is not in the graph.
    NodeNotFound(u128),
    /// The text given is not JSON that the library can read.
    InvalidJson(String),
    /// The data given cannot form a node or a graph.
    InvalidCreation(String),
}

/// The message of an error, as it is shown to a user.
pub open spec fn error_text(e: DeebeeError) -> Seq<char> {
    match e {
        DeebeeError::NodeNotFound(id) => "Node ID "@ + id_text_spec(id) + " not in graph."@,
        DeebeeError::InvalidJson(msg) => "JSON Deserialization failed: "@ + msg@,
        DeebeeError::InvalidCreation(msg) => "Invalid creation: "@ + msg@,
    }
}

impl DeebeeError {
    /// The message of the error: which node is missing, or why the JSON or
    /// the creation failed.
    pub fn message(&self) -> (r: String)
        ensures
            r@ == error_text(*self),
    {
        match self {
            DeebeeError::NodeNotFound(id) => {
                let mut m = String::from_str("Node ID ");
                let t = id_text(*id);
                m.append(t.as_str());
                m.append(" not in graph.");
                m
            },
            DeebeeError::InvalidJson(msg) => {
                let mut m = String::from_str("JSON Deserialization failed: ");
                m.append(msg.as_str());
                m
            },
            DeebeeError::InvalidCreation(msg) => {
                let mut m = String::from_str("Invalid creation: ");
                m.append(msg.as_str());
                m
            },
        }
    }
}

impl PartialEq for DeebeeError {
    fn eq(&self, other: &DeebeeError) -> (r: bool) {
        match (self, other) {
            (DeebeeError::NodeNotFound(a), DeebeeError::NodeNotFound(b)) => *a == *b,
            (DeebeeError::InvalidJson(a), DeebeeError::InvalidJson(b)) => str_eq(a.as_str(), b.as_str()),
            (DeebeeError::InvalidCreation(a), DeebeeError::InvalidCreation(b)) => str_eq(a.as_str(), b.as_str()),
            _ => false,
        }
    }
}

impl vstd::std_specs::cmp::PartialEqSpecImpl for DeebeeError {
    open spec fn obeys_eq_spec() -> bool {
        true
    }

    /// Two errors are equal when they are of the same kind with the same
    /// identifier or the same message.
    open spec fn eq_spec(&self, other: &DeebeeError) -> bool {
        match (*self, *other) {
            (DeebeeError::NodeNotFound(a), DeebeeError::NodeNotFound(b)) => a == b,
            (DeebeeError::InvalidJson(a), DeebeeError::InvalidJson(b)) => a@ == b@,
            (DeebeeError::InvalidCreation(a), DeebeeError::InvalidCreation(b)) => a@ == b@,
            _ => false,
        }
    }
}

} // verus!
