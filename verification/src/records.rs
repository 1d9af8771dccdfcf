//! Plain data records handed to the graph layer by whatever reads node,
//! edge and adjacency-list files.

use vstd::prelude::*;

use crate::node::Node;

verus! {

/// A record of a node: its id and its categorical attributes.
#[derive(Clone, Copy, Debug, PartialEq, Eq, Structural)]
pub struct NodeData {
    pub node_id: u64,
    pub status: i32,
    pub gender: i32,
    pub major: i32,
    pub dorm: i32,
    pub year: i32,
}

/// A record of an edge between the nodes with the two given ids.
#[derive(Clone, Copy, Debug, PartialEq, Eq, Hash, Structural)]
pub struct Edge {
    pub from: u64,
    pub to: u64,
}

/// One row of an adjacency list: a node, a display name, and the node's
/// declared neighbors.
#[derive(Clone, Debug)]
pub struct Adjacency<N: Node> {
    pub node_id: N,
    pub name: String,
    pub id_again: N,
    pub degree: u64,
    pub edges: Vec<N>,
}

} // verus!
