//! Handles by which nodes and edges are named, and the two traversal states.

use vstd::prelude::*;

verus! {

/// Traversal state of a node or an edge that a search may still claim.
pub const OPEN: bool = false;

/// Traversal state of a node or an edge that has been claimed.
pub const CLOSED: bool = true;

/// Names a node of a graph by its position in the graph's store.
///
/// Copying a handle shares the node; it never copies the node.
#[derive(Clone, Copy, Debug, PartialEq, Eq, Hash, Structural)]
pub struct NodeRef {
    pub index: usize,
}

/// Names an edge of a graph by its position in the graph's store.
///
/// Copying a handle shares the edge; it never copies the edge.
#[derive(Clone, Copy, Debug, PartialEq, Eq, Hash, Structural)]
pub struct EdgeRef {
    pub index: usize,
}

} // verus!
