//! An edge: a directed connection between two nodes, with a payload.

use std::fmt::Display;
use vstd::prelude::*;
use crate::graph::Graph;
use crate::handle::{NodeRef, CLOSED, OPEN};
use crate::model::EdgeState;
use crate::render::{edge_text, render_edge, shows};

verus! {

/// A directed edge from `source` to `target`.
///
/// The endpoints and the payload are fixed when the edge is made; only the
/// traversal flag changes afterwards.
#[derive(Debug)]
pub struct Edge<E> {
    pub(crate) source: NodeRef,
    pub(crate) target: NodeRef,
    pub(crate) data: E,
    pub(crate) lock: bool,
}

impl<E> View for Edge<E> {
    type V = EdgeState<E>;

    open(crate) spec fn view(&self) -> EdgeState<E> {
        EdgeState { source: self.source, target: self.target, data: self.data, lock: self.lock }
    }
}

impl<E> Edge<E> {
    /// An open edge from `source` to `target` that carries `data`.
    pub fn new(source: NodeRef, target: NodeRef, data: E) -> (edge: Edge<E>)
        ensures
            edge@ == (EdgeState { source, target, data, lock: OPEN }),
    {
        Edge { source, target, data, lock: OPEN }
    }

    /// The node that the edge leaves.
    pub fn source(&self) -> (source: NodeRef)
        ensures
            source == self@.source,
    {
        self.source
    }

    /// The node that the edge enters.
    pub fn target(&self) -> (target: NodeRef)
        ensures
            target == self@.target,
    {
        self.target
    }

    /// The payload.
    pub fn data(&self) -> (data: &E)
        ensures
            *data == self@.data,
    {
        &self.data
    }

    /// The traversal flag: `OPEN` or `CLOSED`.
    pub fn lock(&self) -> (lock: bool)
        ensures
            lock == self@.lock,
    {
        self.lock
    }

    /// Sets the traversal flag to `CLOSED`.
    pub fn close(&mut self)
        ensures
            final(self)@ == (EdgeState { lock: CLOSED, ..old(self)@ }),
    {
        self.lock = CLOSED;
    }

    /// Sets the traversal flag to `OPEN`.
    pub fn open(&mut self)
        ensures
            final(self)@ == (EdgeState { lock: OPEN, ..old(self)@ }),
    {
        self.lock = OPEN;
    }

    /// Describes the edge: the key of its source, an arrow, the key of its
    /// target, its traversal state and its payload, each in double quotes.
    pub fn to_string<K: Display, N: Display>(&self, graph: &Graph<K, N, E>) -> (text: String) where
        E: Display,

        requires
            graph@.has_node(self@.source),
            graph@.has_node(self@.target),
        ensures
            graph@.describes_edge(self@, text@),
    {
        let source = graph.node(self.source).key().to_string();
        let target = graph.node(self.target).key().to_string();
        let data = self.data.to_string();
        let text = render_edge(source.as_str(), target.as_str(), self.lock, data.as_str());
        proof {
            assert(shows(graph@.node(self@.source).key, source@));
            assert(shows(graph@.node(self@.target).key, target@));
            assert(shows(self@.data, data@));
            assert(text@ == edge_text(source@, target@, self@.lock, data@));
        }
        text
    }
}

} // verus!
