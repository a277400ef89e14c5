//! Laws that relate the operations of the library to one another.

use vstd::prelude::*;
use crate::handle::{EdgeRef, NodeRef};
use crate::wellformed::lemma_connect_wf;
use crate::model::GraphState;

verus! {

impl<K, N, E> GraphState<K, N, E> {
    /// Connecting two nodes that no edge joins yet makes them adjacent, so
    /// that connecting them once more is refused, and appends exactly one
    /// entry, the handle of the new edge, to the outbound list of the source
    /// and to the inbound list of the target.
    pub proof fn law_connect_once(self, source: NodeRef, target: NodeRef, data: E)
        requires
            self.wf(),
            self.has_node(source),
            self.has_node(target),
            !self.adjacent(source, target),
            self.edges.len() < usize::MAX,
        ensures
            self.connect(source, target, data).wf(),
            self.connect(source, target, data).adjacent(source, target),
            self.connect(source, target, data).outbound(source) == self.outbound(source).push(
                self.next_edge(),
            ),
            self.connect(source, target, data).inbound(target) == self.inbound(target).push(
                self.next_edge(),
            ),
            self.connect(source, target, data).outbound(source).len() == self.outbound(
                source,
            ).len() + 1,
            self.connect(source, target, data).inbound(target).len() == self.inbound(target).len()
                + 1,
    {
        let h = self.connect(source, target, data);
        lemma_connect_wf(self, source, target, data);
        assert(h.outbound(source) == self.outbound(source).push(self.next_edge()));
        assert(h.inbound(target) == self.inbound(target).push(self.next_edge()));
        let last = self.outbound(source).len() as int;
        assert(h.target(h.outbound(source)[last]) == target);
    }

    /// Disconnecting two nodes right after they have been connected puts
    /// every adjacency list back as it was before.
    pub proof fn law_disconnect_undoes_connect(self, source: NodeRef, target: NodeRef, data: E)
        requires
            self.wf(),
            self.has_node(source),
            self.has_node(target),
            !self.adjacent(source, target),
            self.edges.len() < usize::MAX,
        ensures
            self.connect(source, target, data).adjacent(source, target),
            self.connect(source, target, data).disconnect(source, target).nodes == self.nodes,
            self.connect(source, target, data).disconnect(source, target).outbound(source).len()
                == self.outbound(source).len(),
            self.connect(source, target, data).disconnect(source, target).inbound(target).len()
                == self.inbound(target).len(),
    {
        let h = self.connect(source, target, data);
        let e = self.next_edge();
        self.law_connect_once(source, target, data);
        h.lemma_disconnect_positions(source, target);
        let i = h.first_outbound(source, target);
        let j = h.first_inbound(target, source);
        let last_out = self.outbound(source).len() as int;
        let last_in = self.inbound(target).len() as int;
        assert forall|k: int| 0 <= k < last_out implies self.target(
            #[trigger] self.outbound(source)[k],
        ) != target by {}
        assert forall|k: int| 0 <= k < last_out implies h.target(
            #[trigger] h.outbound(source)[k],
        ) == self.target(self.outbound(source)[k]) by {
            assert(self.has_edge(self.outbound(source)[k]));
        }
        assert(h.target(h.outbound(source)[last_out]) == target);
        assert(i == last_out);
        assert(h.outbound(source)[i] == e);
        assert(h.inbound(target)[j] == e);
        if j != last_in {
            assert(self.has_edge(self.inbound(target)[j]));
        }
        assert(j == last_in);
        let back = h.disconnect(source, target);
        assert(self.outbound(source).push(e).remove(last_out) =~= self.outbound(source));
        assert(self.inbound(target).push(e).remove(last_in) =~= self.inbound(target));
        assert(back.nodes =~= self.nodes);
    }

    /// Disconnecting two adjacent nodes takes exactly one entry out of the
    /// outbound list of the source and out of the inbound list of the target,
    /// after which the two are no longer adjacent.
    pub proof fn law_disconnect_parts(self, source: NodeRef, target: NodeRef)
        requires
            self.wf(),
            self.has_node(source),
            self.has_node(target),
            self.adjacent(source, target),
        ensures
            self.disconnect(source, target).wf(),
            !self.disconnect(source, target).adjacent(source, target),
            self.disconnect(source, target).outbound(source) == self.outbound(source).remove(
                self.first_outbound(source, target),
            ),
            self.disconnect(source, target).inbound(target) == self.inbound(target).remove(
                self.first_inbound(target, source),
            ),
            self.disconnect(source, target).outbound(source).len() + 1 == self.outbound(
                source,
            ).len(),
            self.disconnect(source, target).inbound(target).len() + 1 == self.inbound(
                target,
            ).len(),
    {
        let h = self.disconnect(source, target);
        self.lemma_disconnect_positions(source, target);
        self.lemma_disconnect_wf(source, target);
        let i = self.first_outbound(source, target);
        let j = self.first_inbound(target, source);
        assert(h.outbound(source) == self.outbound(source).remove(i));
        assert(h.inbound(target) == self.inbound(target).remove(j));
        if h.adjacent(source, target) {
            let k = choose|k: int|
                0 <= k < h.outbound(source).len() && h.target(#[trigger] h.outbound(source)[k])
                    == target;
            let k0 = if k < i {
                k
            } else {
                k + 1
            };
            assert(h.outbound(source)[k] == self.outbound(source)[k0]);
            assert(self.has_edge(self.outbound(source)[k0]));
            if k0 < i {
                assert(self.target(self.outbound(source)[k0]) != self.target(
                    self.outbound(source)[i],
                ));
            } else {
                assert(self.target(self.outbound(source)[i]) != self.target(
                    self.outbound(source)[k0],
                ));
            }
        }
    }

    /// What changes flags and payloads only leaves the keys apart: in a
    /// graph in which no two nodes share a key, none do afterwards.
    pub proof fn law_keys_stay_apart(self, other: Self)
        requires
            self.same_shape(other),
            other.keys_unique(),
        ensures
            self.keys_unique(),
    {
        assert forall|a: NodeRef, b: NodeRef|
            self.has_node(a) && self.has_node(b) && #[trigger] self.node(a).key
                == #[trigger] self.node(b).key implies a == b by {
            assert(self.nodes[a.index as int].key == other.nodes[a.index as int].key);
            assert(self.nodes[b.index as int].key == other.nodes[b.index as int].key);
            assert(other.node(a).key == other.node(b).key);
        }
    }

    /// A breadth-first traversal and a search for the shortest path find
    /// something exactly when a route leads from the origin to the goal;
    /// where the goal cannot be reached, both find nothing.
    pub proof fn law_search_finds_routes(self, origin: NodeRef, goal: NodeRef)
        requires
            self.wf(),
            self.has_node(origin),
        ensures
            self.traverse_breadth(origin, goal) is Some <==> self.reachable(origin, goal),
            self.shortest_path(origin, goal) is Some <==> self.reachable(origin, goal),
    {
        let parents = self.lemma_search(origin, goal);
        self.lemma_search_decides(
            origin,
            goal,
            self.search(origin, goal).0,
            parents,
            self.search(origin, goal).1,
        );
    }

    /// No search reaches its own origin.
    pub proof fn law_origin_is_not_reached(self, origin: NodeRef)
        requires
            self.wf(),
            self.has_node(origin),
        ensures
            self.traverse_breadth(origin, origin) is None,
            self.shortest_path(origin, origin) is None,
    {
        self.law_search_finds_routes(origin, origin);
        if self.reachable(origin, origin) {
            let route = choose|route: Seq<EdgeRef>| self.is_route(origin, route, origin);
            assert(self.passable(origin, route[route.len() - 1]));
        }
    }

    /// The shortest path, read backwards, is a route from the origin to the
    /// goal, and no route from the origin to the goal has fewer edges.
    pub proof fn law_shortest_path_is_shortest(
        self,
        origin: NodeRef,
        goal: NodeRef,
        route: Seq<EdgeRef>,
    )
        requires
            self.wf(),
            self.has_node(origin),
            self.is_route(origin, route, goal),
        ensures
            self.shortest_path(origin, goal) is Some,
            self.is_route(origin, self.shortest_path(origin, goal)->0.reverse(), goal),
            self.shortest_path(origin, goal)->0.len() <= route.len(),
    {
        let parents = self.lemma_search(origin, goal);
        let trace = self.search(origin, goal).0;
        self.law_search_finds_routes(origin, goal);
        self.lemma_backtrack_is_route(origin, trace, parents);
        self.lemma_tree_is_shortest(origin, trace, parents, route, goal);
    }

    /// Where the only route from the origin to the goal is one edge, the
    /// shortest path is that edge.
    pub proof fn law_only_direct_route(self, origin: NodeRef, goal: NodeRef, direct: EdgeRef)
        requires
            self.wf(),
            self.has_node(origin),
            self.is_route(origin, seq![direct], goal),
            forall|route: Seq<EdgeRef>| #[trigger]
                self.is_route(origin, route, goal) ==> route == seq![direct],
        ensures
            self.shortest_path(origin, goal) == Some(seq![direct]),
            self.source(direct) == origin,
            self.target(direct) == goal,
    {
        self.law_shortest_path_is_shortest(origin, goal, seq![direct]);
        let chain = self.shortest_path(origin, goal)->0;
        assert(chain.reverse() == seq![direct]);
        assert(chain =~= seq![direct]) by {
            assert(chain.len() == 1);
            assert(chain[0] == chain.reverse()[0]);
        }
    }
}

} // verus!
