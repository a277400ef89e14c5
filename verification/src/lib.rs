//! A directed graph whose nodes and edges live in one store and are named by
//! handles, with breadth-first reachability search and shortest-path
//! extraction between two nodes.
//!
//! Every node and every edge carries a traversal flag, [`OPEN`] or
//! [`CLOSED`]. A search claims what it visits by closing it and reopens what
//! it claimed before it returns, so that flags closed by the caller act as
//! obstacles.
//!
//! The executable types are [`Graph`], [`Node`], [`Edge`] and [`EdgeList`];
//! [`connect`] and [`disconnect`] change the adjacency, and
//! [`Node::traverse_breadth`] and [`Node::shortest_path`] search. Every
//! contract is stated over [`model::GraphState`], the mathematical state of a
//! graph. The modules `search` and `render` define what the searches and the
//! descriptions are; `wellformed`, `expansion` and `paths` hold the proofs,
//! and `laws` states what relates the operations to one another.

pub mod edge;
pub mod edge_list;
pub mod expansion;
pub mod graph;
pub mod handle;
pub mod laws;
pub mod model;
pub mod node;
pub mod paths;
pub mod render;
pub mod search;
pub mod wellformed;

pub use edge::Edge;
pub use edge_list::EdgeList;
pub use graph::Graph;
pub use handle::{EdgeRef, NodeRef, CLOSED, OPEN};
pub use node::{connect, disconnect, Node};
