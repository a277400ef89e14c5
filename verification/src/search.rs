//! What a breadth-first search does to a graph, stated over the graph's
//! mathematical state.

use vstd::prelude::*;
use crate::handle::{EdgeRef, NodeRef, CLOSED, OPEN};
use crate::model::{EdgeState, GraphState, NodeState};

verus! {

impl<K, N, E> GraphState<K, N, E> {
    /// A search can claim the edge: the edge and the node it enters are open.
    pub open spec fn claimable(self, e: EdgeRef) -> bool {
        self.edge_open(e) && self.node_open(self.target(e))
    }

    /// The graph after the edge and the node it enters have been closed.
    pub open spec fn claim(self, e: EdgeRef) -> Self {
        self.set_edge_lock(e, CLOSED).set_node_lock(self.target(e), CLOSED)
    }

    /// The nodes that the edges of `list` enter, in the order of the list.
    pub open spec fn targets(self, list: Seq<EdgeRef>) -> Seq<NodeRef> {
        Seq::new(list.len(), |k: int| self.target(list[k]))
    }

    /// Some edge of `list` enters the node at position `i` of the store.
    pub open spec fn names_target(self, list: Seq<EdgeRef>, i: int) -> bool {
        exists|k: int| 0 <= k < list.len() && self.target(#[trigger] list[k]).index == i
    }

    /// The graph after every edge of `list`, and the node it enters, has been
    /// closed.
    pub open spec fn claim_all(self, list: Seq<EdgeRef>) -> Self {
        GraphState {
            nodes: Seq::new(
                self.nodes.len(),
                |i: int|
                    if self.names_target(list, i) {
                        NodeState { lock: CLOSED, ..self.nodes[i] }
                    } else {
                        self.nodes[i]
                    },
            ),
            edges: Seq::new(
                self.edges.len(),
                |i: int|
                    if Self::names_edge(list, i) {
                        EdgeState { lock: CLOSED, ..self.edges[i] }
                    } else {
                        self.edges[i]
                    },
            ),
        }
    }

    /// A scan of `adj` that starts in this state claims the edge at position
    /// `j`: the edge can be claimed, and no edge before it that could be
    /// claimed enters the same node.
    pub open spec fn claimed_at(self, adj: Seq<EdgeRef>, j: int) -> bool {
        &&& self.claimable(adj[j])
        &&& forall|i: int|
            0 <= i < j ==> !(self.claimable(#[trigger] adj[i]) && self.target(adj[i])
                == self.target(adj[j]))
    }

    /// The edges that a scan of the first `n` entries of `adj` claims, in
    /// the order of `adj`.
    pub open spec fn claims(self, adj: Seq<EdgeRef>, n: nat) -> Seq<EdgeRef>
        decreases n,
    {
        if n == 0 {
            Seq::empty()
        } else if self.claimed_at(adj, n - 1) {
            self.claims(adj, (n - 1) as nat).push(adj[n - 1])
        } else {
            self.claims(adj, (n - 1) as nat)
        }
    }

    /// The scan claims the edge at position `j`, and that edge enters `goal`.
    pub open spec fn hit_at(self, adj: Seq<EdgeRef>, goal: NodeRef, j: int) -> bool {
        self.claimed_at(adj, j) && self.target(adj[j]) == goal
    }

    /// A scan of `adj` claims an edge that enters `goal`.
    pub open spec fn hits(self, adj: Seq<EdgeRef>, goal: NodeRef) -> bool {
        exists|j: int| 0 <= j < adj.len() && self.hit_at(adj, goal, j)
    }

    /// How many entries of `adj` a scan looks at: all of them, or those up to
    /// and including the edge by which it reaches `goal`.
    pub open spec fn scanned(self, adj: Seq<EdgeRef>, goal: NodeRef) -> nat {
        if self.hits(adj, goal) {
            ((choose|j: int| 0 <= j < adj.len() && self.hit_at(adj, goal, j)) + 1) as nat
        } else {
            adj.len()
        }
    }

    /// The edges that one expansion claims: a scan of `adj` that stops at the
    /// edge by which it reaches `goal`.
    pub open spec fn expansion(self, adj: Seq<EdgeRef>, goal: NodeRef) -> Seq<EdgeRef> {
        self.claims(adj, self.scanned(adj, goal))
    }

    /// The scan of the first `n` entries of `adj` claims the edge `x`.
    pub open spec fn claimed_in(self, adj: Seq<EdgeRef>, n: nat, x: EdgeRef) -> bool {
        exists|j: int| 0 <= j < n && #[trigger] self.claimed_at(adj, j) && adj[j] == x
    }

    /// A search from `origin` may take the edge: the edge is connected and
    /// open, and the node it enters is open and is not `origin`.
    pub open spec fn passable(self, origin: NodeRef, e: EdgeRef) -> bool {
        &&& self.connected(e)
        &&& self.edge_open(e)
        &&& self.node_open(self.target(e))
        &&& self.target(e) != origin
    }

    /// `route` leads from `origin` to `goal`: it is not empty, its first edge
    /// leaves `origin`, each further edge leaves the node that the edge
    /// before it enters, its last edge enters `goal`, and a search from
    /// `origin` may take each of its edges.
    pub open spec fn is_route(self, origin: NodeRef, route: Seq<EdgeRef>, goal: NodeRef) -> bool {
        &&& route.len() > 0
        &&& self.source(route[0]) == origin
        &&& self.target(route.last()) == goal
        &&& forall|k: int| 0 <= k < route.len() ==> self.passable(origin, #[trigger] route[k])
        &&& forall|k: int|
            0 < k < route.len() ==> self.source(#[trigger] route[k]) == self.target(route[k - 1])
    }

    /// Some route leads from `origin` to `goal`.
    pub open spec fn reachable(self, origin: NodeRef, goal: NodeRef) -> bool {
        exists|route: Seq<EdgeRef>| self.is_route(origin, route, goal)
    }

    /// The node that stands at position `h` of the order in which a search
    /// from `origin` with the trace `trace` expands nodes: `origin` itself
    /// before all others, at position -1, then the node that each edge of the
    /// trace enters.
    pub open spec fn node_at(self, origin: NodeRef, trace: Seq<EdgeRef>, h: int) -> NodeRef {
        if h < 0 {
            origin
        } else {
            self.target(trace[h])
        }
    }

    /// What a search from `origin` for `goal` returns that has the trace
    /// `trace` so far and expands the node at position `head` next: the whole
    /// trace, and whether it reached `goal`.
    pub open spec fn run(self, origin: NodeRef, goal: NodeRef, trace: Seq<EdgeRef>, head: int) -> (
        Seq<EdgeRef>,
        bool,
    )
        decreases self.nodes.len() - head,
    {
        if head < -1 || head >= trace.len() || head >= self.nodes.len() {
            (trace, false)
        } else {
            let adj = self.outbound(self.node_at(origin, trace, head));
            let claimed = self.expansion(adj, goal);
            if self.hits(adj, goal) {
                (trace + claimed, true)
            } else {
                self.claim_all(claimed).run(origin, goal, trace + claimed, head + 1)
            }
        }
    }

    /// What a breadth-first search from `origin` for `goal` returns: the
    /// edges it claims, in the order in which it claims them, and whether it
    /// reached `goal`.
    ///
    /// The search closes `origin`, expands it, and then expands the nodes it
    /// has entered in the order in which it entered them, until an expansion
    /// reaches `goal` or no node is left.
    pub open spec fn search(self, origin: NodeRef, goal: NodeRef) -> (Seq<EdgeRef>, bool) {
        self.set_node_lock(origin, CLOSED).run(origin, goal, Seq::empty(), -1)
    }

    /// `trace` is the tree of a search from `origin`, and `parents` gives for
    /// each of its edges the position of the node that the edge leaves: a
    /// search from `origin` may take each edge, no two edges enter the same
    /// node, each edge leaves `origin` or a node that an earlier edge
    /// enters, and edges that leave an earlier node stand earlier.
    pub open spec fn is_tree(self, origin: NodeRef, trace: Seq<EdgeRef>, parents: Seq<int>) -> bool {
        &&& parents.len() == trace.len()
        &&& forall|k: int| 0 <= k < trace.len() ==> self.passable(origin, #[trigger] trace[k])
        &&& forall|i: int, j: int|
            0 <= i < j < trace.len() ==> self.target(#[trigger] trace[i]) != self.target(
                #[trigger] trace[j],
            )
        &&& forall|j: int|
            0 <= j < trace.len() ==> -1 <= #[trigger] parents[j] < j && self.source(trace[j])
                == self.node_at(origin, trace, parents[j])
        &&& forall|i: int, j: int|
            0 <= i <= j < trace.len() ==> #[trigger] parents[i] <= #[trigger] parents[j]
    }

    /// An edge of the trace that leaves a node at a position up to `h`
    /// enters `t`.
    pub open spec fn reached(self, trace: Seq<EdgeRef>, parents: Seq<int>, t: NodeRef, h: int) -> bool {
        exists|j: int|
            0 <= j < trace.len() && self.target(#[trigger] trace[j]) == t && parents[j] <= h
    }

    /// The node at position `h` is exhausted: whatever edge a search may
    /// take out of it enters a node that the trace has reached from a
    /// position up to `h`.
    pub open spec fn exhausted(
        self,
        origin: NodeRef,
        trace: Seq<EdgeRef>,
        parents: Seq<int>,
        h: int,
    ) -> bool {
        forall|k: int|
            0 <= k < self.outbound(self.node_at(origin, trace, h)).len() && self.passable(
                origin,
                #[trigger] self.outbound(self.node_at(origin, trace, h))[k],
            ) ==> self.reached(
                trace,
                parents,
                self.target(self.outbound(self.node_at(origin, trace, h))[k]),
                h,
            )
    }

    /// Every node at a position below `head` is exhausted.
    pub open spec fn exhausted_below(
        self,
        origin: NodeRef,
        trace: Seq<EdgeRef>,
        parents: Seq<int>,
        head: int,
    ) -> bool {
        forall|h: int| -1 <= h < head ==> #[trigger] self.exhausted(origin, trace, parents, h)
    }

    /// The state in which a search from `origin` with the trace `trace`
    /// stands: `origin` closed, and every edge of the trace claimed.
    pub open spec fn searching(self, origin: NodeRef, trace: Seq<EdgeRef>) -> Self {
        self.set_node_lock(origin, CLOSED).claim_all(trace)
    }

    /// The parents of a trace that has grown by the edges that the expansion
    /// of the node at position `head` claimed.
    pub open spec fn grown_parents(parents: Seq<int>, claimed: Seq<EdgeRef>, head: int) -> Seq<int> {
        parents + Seq::new(claimed.len(), |k: int| head)
    }

    /// Every node and every edge is open.
    pub open spec fn all_open(self) -> bool {
        &&& forall|n: NodeRef| self.has_node(n) ==> #[trigger] self.node_open(n)
        &&& forall|e: EdgeRef| self.has_edge(e) ==> #[trigger] self.edge_open(e)
    }

    /// What a breadth-first traversal from `origin` to `goal` returns: the
    /// trace of the search where it reaches `goal`, nothing where it does
    /// not.
    pub open spec fn traverse_breadth(self, origin: NodeRef, goal: NodeRef) -> Option<Seq<EdgeRef>> {
        if self.search(origin, goal).1 {
            Some(self.search(origin, goal).0)
        } else {
            None
        }
    }

    /// What a search for the shortest path from `origin` to `goal` returns:
    /// the chain that leads back from the last edge of the trace where the
    /// search reaches `goal`, nothing where it does not.
    pub open spec fn shortest_path(self, origin: NodeRef, goal: NodeRef) -> Option<Seq<EdgeRef>> {
        if self.search(origin, goal).1 {
            Some(self.backtrack(self.search(origin, goal).0))
        } else {
            None
        }
    }
}

} // verus!
