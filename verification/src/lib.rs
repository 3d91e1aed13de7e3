//! Deebee: a small graph database whose nodes hold dynamic values and are
//! linked to one another by labelled, bidirectional arrows.

pub mod error;
pub mod text;
pub mod arrow;
pub mod value;
pub mod convert;
pub mod json;
pub mod parse;
pub mod ids;
pub mod node;
pub mod graph;
pub mod load;
pub mod export;
pub mod roundtrip;
pub mod graph_roundtrip;
pub mod laws;

pub use error::DeebeeError;
pub use arrow::Arrow;
pub use value::Value;
pub use node::Node;
pub use graph::Graph;
