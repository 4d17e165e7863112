//! An in-memory store for directed attributed graphs in the DOT model:
//! nodes, directed edges with optional ports, and nested subgraphs.
//! Derived views (filtered, neighbourhood, subgraph-rooted) are new,
//! self-consistent graphs; serialization emits canonical DOT text.

pub mod attr;
pub mod compose;
pub mod edge;
pub mod error;
pub mod graph;
pub mod laws;
pub mod model;
pub mod node;
pub mod text;

pub use attr::Attr;
pub use edge::{Edge, EdgeId};
pub use error::DotGraphError;
pub use graph::{Graph, IGraph, SubGraph};
pub use node::Node;
pub use text::pretty_id;
