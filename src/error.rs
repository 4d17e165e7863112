use vstd::prelude::*;

verus! {

/// What can go wrong when building or querying a graph.
#[derive(Debug, Clone, PartialEq, Eq)]
pub enum DotGraphError {
    /// The input is not a well-formed graph (payload: the graph id).
    InvalidGraph(String),
    /// The input graph is not directed (payload: the graph id).
    UndirectedGraph(String),
    /// The graph contains a directed cycle (payload: the graph id).
    Cycle(String),
    /// No node has this id (payload: the node id, the graph id).
    NoSuchNode(String, String),
    /// No subgraph has this id (payload: the subgraph id, the graph id).
    NoSuchSubGraph(String, String),
    /// Writing the output failed (payload: the sink's message).
    IOError(String),
}

} // verus!
