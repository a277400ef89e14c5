//! The store that owns the nodes and edges of a graph.

use vstd::prelude::*;
use vstd::laws_eq::obeys_concrete_eq;
use vstd::std_specs::cmp::PartialEqSpec;
use crate::edge::Edge;
use crate::handle::{EdgeRef, NodeRef, CLOSED, OPEN};
use crate::model::GraphState;
use crate::node::Node;

verus! {

/// A directed graph: the store of its nodes and edges.
///
/// Nodes and edges are shared by handle: whoever holds a [`NodeRef`] or an
/// [`EdgeRef`] reads and changes the one node or edge that the store holds.
/// A handle is valid for the graph that gave it out, and stays valid: the
/// store never drops a node or an edge.
///
/// A graph is well formed ([`GraphState::wf`]) when it is made, and every
/// function of the library keeps it so: an outbound list holds edges that
/// leave its node and an inbound list edges that enter it, the two kinds of
/// list mirror each other, and no ordered pair of nodes is joined twice.
///
/// A node is the node that its handle names. Keys describe nodes and serve to
/// look them up; that no two nodes share a key
/// ([`GraphState::keys_unique`]) is for the caller to see to, and once so
/// stays so.
#[derive(Debug)]
pub struct Graph<K, N, E> {
    pub(crate) nodes: Vec<Node<K, N>>,
    pub(crate) edges: Vec<Edge<E>>,
}

impl<K, N, E> View for Graph<K, N, E> {
    type V = GraphState<K, N, E>;

    open(crate) spec fn view(&self) -> GraphState<K, N, E> {
        GraphState {
            nodes: Seq::new(self.nodes@.len(), |i: int| self.nodes@[i]@),
            edges: Seq::new(self.edges@.len(), |i: int| self.edges@[i]@),
        }
    }
}

impl<K, N, E> Graph<K, N, E> {
    /// A graph without nodes.
    pub fn new() -> (graph: Graph<K, N, E>)
        ensures
            graph@.nodes.len() == 0,
            graph@.edges.len() == 0,
            graph@.wf(),
    {
        Graph { nodes: Vec::new(), edges: Vec::new() }
    }

    /// The number of nodes.
    pub fn node_count(&self) -> (count: usize)
        ensures
            count == self@.nodes.len(),
    {
        self.nodes.len()
    }

    /// The number of edges ever made, whether or not they are still connected.
    pub fn edge_count(&self) -> (count: usize)
        ensures
            count == self@.edges.len(),
    {
        self.edges.len()
    }

    /// The first node with the key `key`, if there is one.
    ///
    /// `==` on keys has to tell whether two keys are the same value.
    pub fn find(&self, key: &K) -> (found: Option<NodeRef>) where K: PartialEq
        requires
            obeys_concrete_eq::<K>(),
        ensures
            match found {
                Some(n) => {
                    &&& self@.has_node(n)
                    &&& self@.node(n).key == *key
                    &&& forall|m: NodeRef| m.index < n.index ==> #[trigger] self@.node(m).key != *key
                },
                None => !self@.has_key(*key),
            },
    {
        proof {
            reveal(obeys_concrete_eq);
        }
        let mut i: usize = 0;
        while i < self.nodes.len()
            invariant
                i <= self.nodes@.len(),
                K::obeys_eq_spec(),
                forall|x: K, y: K| x.eq_spec(&y) <==> x == y,
                forall|n: NodeRef| n.index < i ==> #[trigger] self@.node(n).key != *key,
            decreases self.nodes@.len() - i,
        {
            if self.nodes[i].key == *key {
                return Some(NodeRef { index: i });
            }
            i += 1;
        }
        None
    }

    /// Adds an open node without edges and returns its handle.
    ///
    /// Nothing is compared: a caller who wants no key twice looks the key up
    /// with [`find`](Graph::find) first.
    pub fn add_node(&mut self, key: K, data: N) -> (added: NodeRef)
        requires
            old(self)@.wf(),
        ensures
            added == old(self)@.next_node(),
            final(self)@ == old(self)@.add_node(key, data),
            final(self)@.wf(),
            final(self)@.has_node(added),
            old(self)@.keys_unique() && !old(self)@.has_key(key) ==> final(self)@.keys_unique(),
    {
        let added = NodeRef { index: self.nodes.len() };
        self.nodes.push(Node::new(key, data));
        proof {
            assert(self.nodes@.len() == self.nodes.len());
            assert(self@.nodes =~= old(self)@.add_node(key, data).nodes);
            assert(self@.edges =~= old(self)@.edges);
            old(self)@.lemma_add_node_wf(key, data);
        }
        added
    }

    /// Replaces the payload of the node `n`.
    pub fn store(&mut self, n: NodeRef, data: N)
        requires
            old(self)@.has_node(n),
        ensures
            final(self)@ == old(self)@.store(n, data),
            old(self)@.wf() ==> final(self)@.wf(),
    {
        self.nodes[n.index].store(data);
        proof {
            assert(self@.nodes =~= old(self)@.store(n, data).nodes);
            assert(self@.edges =~= old(self)@.edges);
            old(self)@.lemma_node_setters_shape(n, OPEN, data);
            if old(self)@.wf() {
                self@.lemma_same_shape_wf(old(self)@);
            }
        }
    }

    /// The node that `n` names.
    pub fn node(&self, n: NodeRef) -> (node: &Node<K, N>)
        requires
            self@.has_node(n),
        ensures
            node@ == self@.node(n),
            self@.lists_valid() ==> self@.has_edges(node@.outbound) && self@.has_edges(
                node@.inbound,
            ),
    {
        proof {
            if self@.lists_valid() {
                self@.lemma_lists_named(n);
            }
        }
        &self.nodes[n.index]
    }

    /// The edge that `e` names.
    pub fn edge(&self, e: EdgeRef) -> (edge: &Edge<E>)
        requires
            self@.has_edge(e),
        ensures
            edge@ == self@.edge(e),
    {
        &self.edges[e.index]
    }

    /// Sets the flag of the node `n` to `lock`.
    pub fn set_node_lock(&mut self, n: NodeRef, lock: bool)
        requires
            old(self)@.has_node(n),
        ensures
            final(self)@ == old(self)@.set_node_lock(n, lock),
            final(self)@.same_shape(old(self)@),
            old(self)@.wf() ==> final(self)@.wf(),
    {
        let ghost data = self@.node(n).data;
        self.nodes[n.index].lock = lock;
        proof {
            assert(self@.nodes =~= old(self)@.set_node_lock(n, lock).nodes);
            assert(self@.edges =~= old(self)@.edges);
            old(self)@.lemma_node_setters_shape(n, lock, data);
            if old(self)@.wf() {
                self@.lemma_same_shape_wf(old(self)@);
            }
        }
    }

    /// Sets the flag of the edge `e` to `lock`.
    pub fn set_edge_lock(&mut self, e: EdgeRef, lock: bool)
        requires
            old(self)@.has_edge(e),
        ensures
            final(self)@ == old(self)@.set_edge_lock(e, lock),
            final(self)@.same_shape(old(self)@),
            old(self)@.wf() ==> final(self)@.wf(),
    {
        self.edges[e.index].lock = lock;
        proof {
            assert(self@.edges =~= old(self)@.set_edge_lock(e, lock).edges);
            assert(self@.nodes =~= old(self)@.nodes);
            old(self)@.lemma_edge_setter_shape(e, lock);
            if old(self)@.wf() {
                self@.lemma_same_shape_wf(old(self)@);
            }
        }
    }

    /// Sets the flag of the node `n` to `CLOSED`.
    pub fn close_node(&mut self, n: NodeRef)
        requires
            old(self)@.has_node(n),
        ensures
            final(self)@ == old(self)@.set_node_lock(n, CLOSED),
            final(self)@.same_shape(old(self)@),
            old(self)@.wf() ==> final(self)@.wf(),
    {
        let ghost data = self@.node(n).data;
        self.nodes[n.index].close();
        proof {
            assert(self@.nodes =~= old(self)@.set_node_lock(n, CLOSED).nodes);
            assert(self@.edges =~= old(self)@.edges);
            old(self)@.lemma_node_setters_shape(n, CLOSED, data);
            if old(self)@.wf() {
                self@.lemma_same_shape_wf(old(self)@);
            }
        }
    }

    /// Sets the flag of the node `n` to `OPEN`.
    pub fn open_node(&mut self, n: NodeRef)
        requires
            old(self)@.has_node(n),
        ensures
            final(self)@ == old(self)@.set_node_lock(n, OPEN),
            final(self)@.same_shape(old(self)@),
            old(self)@.wf() ==> final(self)@.wf(),
    {
        let ghost data = self@.node(n).data;
        self.nodes[n.index].open();
        proof {
            assert(self@.nodes =~= old(self)@.set_node_lock(n, OPEN).nodes);
            assert(self@.edges =~= old(self)@.edges);
            old(self)@.lemma_node_setters_shape(n, OPEN, data);
            if old(self)@.wf() {
                self@.lemma_same_shape_wf(old(self)@);
            }
        }
    }

    /// Sets the flag of the edge `e` to `CLOSED`.
    pub fn close_edge(&mut self, e: EdgeRef)
        requires
            old(self)@.has_edge(e),
        ensures
            final(self)@ == old(self)@.set_edge_lock(e, CLOSED),
            final(self)@.same_shape(old(self)@),
            old(self)@.wf() ==> final(self)@.wf(),
    {
        self.edges[e.index].close();
        proof {
            assert(self@.edges =~= old(self)@.set_edge_lock(e, CLOSED).edges);
            assert(self@.nodes =~= old(self)@.nodes);
            old(self)@.lemma_edge_setter_shape(e, CLOSED);
            if old(self)@.wf() {
                self@.lemma_same_shape_wf(old(self)@);
            }
        }
    }

    /// Sets the flag of the edge `e` to `OPEN`.
    pub fn open_edge(&mut self, e: EdgeRef)
        requires
            old(self)@.has_edge(e),
        ensures
            final(self)@ == old(self)@.set_edge_lock(e, OPEN),
            final(self)@.same_shape(old(self)@),
            old(self)@.wf() ==> final(self)@.wf(),
    {
        self.edges[e.index].open();
        proof {
            assert(self@.edges =~= old(self)@.set_edge_lock(e, OPEN).edges);
            assert(self@.nodes =~= old(self)@.nodes);
            old(self)@.lemma_edge_setter_shape(e, OPEN);
            if old(self)@.wf() {
                self@.lemma_same_shape_wf(old(self)@);
            }
        }
    }
}

} // verus!
