//! The mathematical state of a graph, over which every contract is stated.

use vstd::prelude::*;
use crate::handle::{EdgeRef, NodeRef, OPEN};

verus! {

/// What a node is: its key, its payload, its flag and its two adjacency lists.
pub struct NodeState<K, N> {
    pub key: K,
    pub data: N,
    pub lock: bool,
    pub outbound: Seq<EdgeRef>,
    pub inbound: Seq<EdgeRef>,
}

/// What an edge is: its two endpoints, its payload and its flag.
pub struct EdgeState<E> {
    pub source: NodeRef,
    pub target: NodeRef,
    pub data: E,
    pub lock: bool,
}

/// What a graph is: its nodes and its edges, each at the position that its
/// handle gives.
pub struct GraphState<K, N, E> {
    pub nodes: Seq<NodeState<K, N>>,
    pub edges: Seq<EdgeState<E>>,
}

impl<K, N, E> GraphState<K, N, E> {
    /// The handle names a node of this graph.
    pub open spec fn has_node(self, n: NodeRef) -> bool {
        n.index < self.nodes.len()
    }

    /// The handle names an edge of this graph.
    pub open spec fn has_edge(self, e: EdgeRef) -> bool {
        e.index < self.edges.len()
    }

    /// The node that `n` names.
    pub open spec fn node(self, n: NodeRef) -> NodeState<K, N> {
        self.nodes[n.index as int]
    }

    /// The edge that `e` names.
    pub open spec fn edge(self, e: EdgeRef) -> EdgeState<E> {
        self.edges[e.index as int]
    }

    /// The node that the edge `e` leaves.
    pub open spec fn source(self, e: EdgeRef) -> NodeRef {
        self.edge(e).source
    }

    /// The node that the edge `e` enters.
    pub open spec fn target(self, e: EdgeRef) -> NodeRef {
        self.edge(e).target
    }

    /// The outbound list of the node `n`.
    pub open spec fn outbound(self, n: NodeRef) -> Seq<EdgeRef> {
        self.node(n).outbound
    }

    /// The inbound list of the node `n`.
    pub open spec fn inbound(self, n: NodeRef) -> Seq<EdgeRef> {
        self.node(n).inbound
    }

    /// The flag of the node `n` is `OPEN`.
    pub open spec fn node_open(self, n: NodeRef) -> bool {
        self.node(n).lock == OPEN
    }

    /// The flag of the edge `e` is `OPEN`.
    pub open spec fn edge_open(self, e: EdgeRef) -> bool {
        self.edge(e).lock == OPEN
    }

    /// The graph with the flag of the node `n` set to `lock`.
    pub open spec fn set_node_lock(self, n: NodeRef, lock: bool) -> Self {
        GraphState {
            nodes: self.nodes.update(n.index as int, NodeState { lock, ..self.node(n) }),
            edges: self.edges,
        }
    }

    /// The graph with the flag of the edge `e` set to `lock`.
    pub open spec fn set_edge_lock(self, e: EdgeRef, lock: bool) -> Self {
        GraphState {
            nodes: self.nodes,
            edges: self.edges.update(e.index as int, EdgeState { lock, ..self.edge(e) }),
        }
    }

    /// Some node of this graph has the key `key`.
    pub open spec fn has_key(self, key: K) -> bool {
        exists|n: NodeRef| self.has_node(n) && #[trigger] self.node(n).key == key
    }

    /// The handle that the next node added to the store gets.
    pub open spec fn next_node(self) -> NodeRef {
        NodeRef { index: self.nodes.len() as usize }
    }

    /// The graph with one more node: open, without edges, with the given key
    /// and payload.
    pub open spec fn add_node(self, key: K, data: N) -> Self {
        GraphState {
            nodes: self.nodes.push(
                NodeState {
                    key,
                    data,
                    lock: OPEN,
                    outbound: Seq::<EdgeRef>::empty(),
                    inbound: Seq::<EdgeRef>::empty(),
                },
            ),
            edges: self.edges,
        }
    }

    /// The graph with the payload of the node `n` replaced by `data`.
    pub open spec fn store(self, n: NodeRef, data: N) -> Self {
        GraphState {
            nodes: self.nodes.update(n.index as int, NodeState { data, ..self.node(n) }),
            edges: self.edges,
        }
    }

    /// Two edges have the same source and the same target.
    pub open spec fn same_ends(self, a: EdgeRef, b: EdgeRef) -> bool {
        self.source(a) == self.source(b) && self.target(a) == self.target(b)
    }

    /// Position `k` holds the first edge of `list` with the ends of `e`.
    pub open spec fn first_with_ends(self, list: Seq<EdgeRef>, e: EdgeRef, k: int) -> bool {
        &&& 0 <= k < list.len()
        &&& self.same_ends(list[k], e)
        &&& forall|j: int| 0 <= j < k ==> !self.same_ends(#[trigger] list[j], e)
    }

    /// Some edge of `list` has the ends of `e`.
    pub open spec fn some_with_ends(self, list: Seq<EdgeRef>, e: EdgeRef) -> bool {
        exists|k: int| 0 <= k < list.len() && self.same_ends(#[trigger] list[k], e)
    }

    /// The handle that the next edge added to the store gets.
    pub open spec fn next_edge(self) -> EdgeRef {
        EdgeRef { index: self.edges.len() as usize }
    }

    /// The graph with `edge` added to the store, in no adjacency list yet.
    pub open spec fn push_edge(self, edge: EdgeState<E>) -> Self {
        GraphState { nodes: self.nodes, edges: self.edges.push(edge) }
    }

    /// The graph with `e` appended to the outbound list of `n`.
    pub open spec fn push_outbound(self, n: NodeRef, e: EdgeRef) -> Self {
        GraphState {
            nodes: self.nodes.update(
                n.index as int,
                NodeState { outbound: self.outbound(n).push(e), ..self.node(n) },
            ),
            edges: self.edges,
        }
    }

    /// The graph with `e` appended to the inbound list of `n`.
    pub open spec fn push_inbound(self, n: NodeRef, e: EdgeRef) -> Self {
        GraphState {
            nodes: self.nodes.update(
                n.index as int,
                NodeState { inbound: self.inbound(n).push(e), ..self.node(n) },
            ),
            edges: self.edges,
        }
    }

    /// The graph without the entry at position `i` of the outbound list of `n`.
    pub open spec fn remove_outbound(self, n: NodeRef, i: int) -> Self {
        GraphState {
            nodes: self.nodes.update(
                n.index as int,
                NodeState { outbound: self.outbound(n).remove(i), ..self.node(n) },
            ),
            edges: self.edges,
        }
    }

    /// The graph without the entry at position `i` of the inbound list of `n`.
    pub open spec fn remove_inbound(self, n: NodeRef, i: int) -> Self {
        GraphState {
            nodes: self.nodes.update(
                n.index as int,
                NodeState { inbound: self.inbound(n).remove(i), ..self.node(n) },
            ),
            edges: self.edges,
        }
    }

    /// Position `k` holds the first edge of `list` that enters `t`.
    pub open spec fn first_with_target(self, list: Seq<EdgeRef>, t: NodeRef, k: int) -> bool {
        &&& 0 <= k < list.len()
        &&& self.target(list[k]) == t
        &&& forall|j: int| 0 <= j < k ==> self.target(#[trigger] list[j]) != t
    }

    /// Position `k` holds the first edge of `list` that leaves `s`.
    pub open spec fn first_with_source(self, list: Seq<EdgeRef>, s: NodeRef, k: int) -> bool {
        &&& 0 <= k < list.len()
        &&& self.source(list[k]) == s
        &&& forall|j: int| 0 <= j < k ==> self.source(#[trigger] list[j]) != s
    }

    /// Some edge of `list` enters `t`.
    pub open spec fn some_with_target(self, list: Seq<EdgeRef>, t: NodeRef) -> bool {
        exists|k: int| 0 <= k < list.len() && self.target(#[trigger] list[k]) == t
    }

    /// Some edge of `list` leaves `s`.
    pub open spec fn some_with_source(self, list: Seq<EdgeRef>, s: NodeRef) -> bool {
        exists|k: int| 0 <= k < list.len() && self.source(#[trigger] list[k]) == s
    }

    /// The outbound list of `s` holds an edge that enters `t`.
    pub open spec fn adjacent(self, s: NodeRef, t: NodeRef) -> bool {
        self.some_with_target(self.outbound(s), t)
    }

    /// The position of the first edge to `t` in the outbound list of `s`.
    pub open spec fn first_outbound(self, s: NodeRef, t: NodeRef) -> int {
        choose|k: int| self.first_with_target(self.outbound(s), t, k)
    }

    /// The position of the first edge from `s` in the inbound list of `t`.
    pub open spec fn first_inbound(self, t: NodeRef, s: NodeRef) -> int {
        choose|k: int| self.first_with_source(self.inbound(t), s, k)
    }

    /// The graph after a new open edge from `s` to `t` with payload `data` has
    /// been added to the store, to the outbound list of `s` and to the inbound
    /// list of `t`.
    pub open spec fn connect(self, s: NodeRef, t: NodeRef, data: E) -> Self {
        self.push_edge(EdgeState { source: s, target: t, data, lock: OPEN }).push_outbound(
            s,
            self.next_edge(),
        ).push_inbound(t, self.next_edge())
    }

    /// The graph after the first edge to `t` has left the outbound list of `s`
    /// and the first edge from `s`, if there is one, the inbound list of `t`.
    pub open spec fn disconnect(self, s: NodeRef, t: NodeRef) -> Self {
        let unhooked = if self.some_with_source(self.inbound(t), s) {
            self.remove_inbound(t, self.first_inbound(t, s))
        } else {
            self
        };
        unhooked.remove_outbound(s, self.first_outbound(s, t))
    }

    /// Some entry of `list` is the edge at position `i` of the store.
    pub open spec fn names_edge(list: Seq<EdgeRef>, i: int) -> bool {
        exists|k: int| 0 <= k < list.len() && (#[trigger] list[k]).index == i
    }

    /// Some edge of `list` leaves or enters the node at position `i` of the
    /// store.
    pub open spec fn names_node(self, list: Seq<EdgeRef>, i: int) -> bool {
        exists|k: int|
            0 <= k < list.len() && (self.source(#[trigger] list[k]).index == i || self.target(
                list[k],
            ).index == i)
    }

    /// The graph with the flag of every edge in `list` set to `lock`.
    pub open spec fn set_edges(self, list: Seq<EdgeRef>, lock: bool) -> Self {
        GraphState {
            nodes: self.nodes,
            edges: Seq::new(
                self.edges.len(),
                |i: int|
                    if Self::names_edge(list, i) {
                        EdgeState { lock, ..self.edges[i] }
                    } else {
                        self.edges[i]
                    },
            ),
        }
    }

    /// The graph with the flag of every node that an edge in `list` leaves or
    /// enters set to `lock`.
    pub open spec fn set_nodes(self, list: Seq<EdgeRef>, lock: bool) -> Self {
        GraphState {
            nodes: Seq::new(
                self.nodes.len(),
                |i: int|
                    if self.names_node(list, i) {
                        NodeState { lock, ..self.nodes[i] }
                    } else {
                        self.nodes[i]
                    },
            ),
            edges: self.edges,
        }
    }

    /// The graph with the flags of the edges in `list`, where `edges` is set,
    /// and of their end nodes, where `nodes` is set, set to `lock`.
    pub open spec fn mark(self, list: Seq<EdgeRef>, edges: bool, nodes: bool, lock: bool) -> Self {
        let marked = if edges {
            self.set_edges(list, lock)
        } else {
            self
        };
        if nodes {
            marked.set_nodes(list, lock)
        } else {
            marked
        }
    }

    /// The graph with the flag of every edge in `list`, and of every node that
    /// one of them leaves or enters, set to `lock`.
    pub open spec fn set_all(self, list: Seq<EdgeRef>, lock: bool) -> Self {
        self.mark(list, true, true, lock)
    }

    /// What a backward scan over the first `n` entries of `list` adds to a
    /// chain whose most recent edge is `last`: each edge that enters the source
    /// of the edge added before it.
    pub open spec fn trail(self, list: Seq<EdgeRef>, n: nat, last: EdgeRef) -> Seq<EdgeRef>
        decreases n,
    {
        if n == 0 {
            Seq::empty()
        } else {
            let e = list[n - 1];
            if self.target(e) == self.source(last) {
                seq![e] + self.trail(list, (n - 1) as nat, e)
            } else {
                self.trail(list, (n - 1) as nat, last)
            }
        }
    }

    /// The chain that leads back from the last edge of a nonempty `list`: the
    /// last edge, then, going backwards through the whole list, each edge that
    /// enters the source of the edge taken before it.
    pub open spec fn backtrack(self, list: Seq<EdgeRef>) -> Seq<EdgeRef> {
        seq![list.last()] + self.trail(list, list.len(), list.last())
    }

    /// The two graphs differ in flags and payloads at most: they have the
    /// same nodes with the same keys and adjacency lists, and the same edges
    /// with the same ends.
    pub open spec fn same_shape(self, other: Self) -> bool {
        &&& self.nodes.len() == other.nodes.len()
        &&& self.edges.len() == other.edges.len()
        &&& forall|i: int|
            0 <= i < self.nodes.len() ==> {
                &&& (#[trigger] self.nodes[i]).key == other.nodes[i].key
                &&& self.nodes[i].outbound == other.nodes[i].outbound
                &&& self.nodes[i].inbound == other.nodes[i].inbound
            }
        &&& forall|i: int|
            0 <= i < self.edges.len() ==> {
                &&& (#[trigger] self.edges[i]).source == other.edges[i].source
                &&& self.edges[i].target == other.edges[i].target
            }
    }

    /// Every handle in the list names an edge of this graph.
    pub open spec fn has_edges(self, list: Seq<EdgeRef>) -> bool {
        forall|k: int| 0 <= k < list.len() ==> self.has_edge(#[trigger] list[k])
    }

    /// Both endpoints of every edge are nodes of this graph.
    pub open spec fn endpoints_valid(self) -> bool {
        forall|e: EdgeRef| #[trigger]
            self.has_edge(e) ==> self.has_node(self.source(e)) && self.has_node(self.target(e))
    }

    /// A node's outbound list holds edges that leave it, and its inbound list
    /// edges that enter it.
    pub open spec fn lists_valid(self) -> bool {
        forall|n: NodeRef| #[trigger]
            self.has_node(n) ==> {
                &&& forall|k: int|
                    0 <= k < self.outbound(n).len() ==> {
                        &&& self.has_edge(#[trigger] self.outbound(n)[k])
                        &&& self.source(self.outbound(n)[k]) == n
                    }
                &&& forall|k: int|
                    0 <= k < self.inbound(n).len() ==> {
                        &&& self.has_edge(#[trigger] self.inbound(n)[k])
                        &&& self.target(self.inbound(n)[k]) == n
                    }
            }
    }

    /// No two nodes have the same key. Whoever adds nodes under fresh keys
    /// only keeps it so: no function of the library changes a key.
    pub open spec fn keys_unique(self) -> bool {
        forall|a: NodeRef, b: NodeRef|
            self.has_node(a) && self.has_node(b) && #[trigger] self.node(a).key == #[trigger] self.node(
                b,
            ).key ==> a == b
    }

    /// No ordered pair of nodes is joined by two edges: the targets along an
    /// outbound list differ, and so do the sources along an inbound list.
    pub open spec fn no_parallel_edges(self) -> bool {
        forall|n: NodeRef| #[trigger]
            self.has_node(n) ==> {
                &&& forall|i: int, j: int|
                    0 <= i < j < self.outbound(n).len() ==> self.target(
                        #[trigger] self.outbound(n)[i],
                    ) != self.target(#[trigger] self.outbound(n)[j])
                &&& forall|i: int, j: int|
                    0 <= i < j < self.inbound(n).len() ==> self.source(
                        #[trigger] self.inbound(n)[i],
                    ) != self.source(#[trigger] self.inbound(n)[j])
            }
    }

    /// The edge is in the outbound list of its source.
    pub open spec fn leaves_source(self, e: EdgeRef) -> bool {
        self.outbound(self.source(e)).contains(e)
    }

    /// The edge is in the inbound list of its target.
    pub open spec fn enters_target(self, e: EdgeRef) -> bool {
        self.inbound(self.target(e)).contains(e)
    }

    /// The outbound and inbound lists mirror each other: an edge is in the
    /// outbound list of its source exactly when it is in the inbound list of
    /// its target.
    pub open spec fn mirrored(self) -> bool {
        forall|e: EdgeRef| #[trigger]
            self.has_edge(e) ==> (self.leaves_source(e) <==> self.enters_target(e))
    }

    /// The graph is well formed: its adjacency lists hold edges of the graph
    /// between nodes of the graph, mirror each other, and join no ordered
    /// pair of nodes twice.
    pub open spec fn wf(self) -> bool {
        &&& self.endpoints_valid()
        &&& self.lists_valid()
        &&& self.no_parallel_edges()
        &&& self.mirrored()
    }

    /// The edge is part of the graph's adjacency: it names an edge and has not
    /// been disconnected.
    pub open spec fn connected(self, e: EdgeRef) -> bool {
        self.has_edge(e) && self.leaves_source(e)
    }
}

} // verus!
