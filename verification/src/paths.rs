//! What the tree of a breadth-first search says about routes: the search
//! reaches a node exactly when a route leads to it, and the chain that leads
//! back from the node is a route of the least length.

use vstd::prelude::*;
use crate::handle::{EdgeRef, NodeRef, CLOSED, OPEN};
use crate::model::GraphState;

verus! {

/// The number of edges between the origin of a search and the node at
/// position `j`, along the tree that `parents` describes.
pub open spec fn depth(parents: Seq<int>, j: int) -> nat
    decreases j + 1,
{
    if 0 <= j < parents.len() && -1 <= parents[j] < j {
        depth(parents, parents[j]) + 1
    } else {
        0
    }
}

/// The edges of the tree from the origin of a search to the node at position
/// `j`, first edge first.
pub open spec fn path_to(trace: Seq<EdgeRef>, parents: Seq<int>, j: int) -> Seq<EdgeRef>
    decreases j + 1,
{
    if 0 <= j < parents.len() && -1 <= parents[j] < j {
        path_to(trace, parents, parents[j]).push(trace[j])
    } else {
        Seq::empty()
    }
}

/// The edges of the tree from the node at position `j` back to the origin of
/// a search, last edge first.
pub open spec fn path_back(trace: Seq<EdgeRef>, parents: Seq<int>, j: int) -> Seq<EdgeRef>
    decreases j + 1,
{
    if 0 <= j < parents.len() && -1 <= parents[j] < j {
        seq![trace[j]] + path_back(trace, parents, parents[j])
    } else {
        Seq::empty()
    }
}

/// The way back is the way there, reversed.
pub proof fn lemma_path_back(trace: Seq<EdgeRef>, parents: Seq<int>, j: int)
    ensures
        path_back(trace, parents, j) == path_to(trace, parents, j).reverse(),
        path_back(trace, parents, j).reverse() == path_to(trace, parents, j),
        path_back(trace, parents, j).len() == depth(parents, j),
    decreases j + 1,
{
    let there = path_to(trace, parents, j);
    let back = path_back(trace, parents, j);
    if 0 <= j < parents.len() && -1 <= parents[j] < j {
        lemma_path_back(trace, parents, parents[j]);
        let before = path_to(trace, parents, parents[j]);
        assert(there == before.push(trace[j]));
        assert(back =~= there.reverse());
    } else {
        assert(back =~= there.reverse());
    }
    assert(back.reverse() =~= there);
}

impl<K, N, E> GraphState<K, N, E> {
    /// The tree holds a route from the origin to every node it enters.
    pub proof fn lemma_path_is_route(
        self,
        origin: NodeRef,
        trace: Seq<EdgeRef>,
        parents: Seq<int>,
        j: int,
    )
        requires
            self.is_tree(origin, trace, parents),
            0 <= j < trace.len(),
        ensures
            self.is_route(origin, path_to(trace, parents, j), self.target(trace[j])),
            path_to(trace, parents, j).last() == trace[j],
            path_to(trace, parents, j).len() == depth(parents, j),
        decreases j,
    {
        let route = path_to(trace, parents, j);
        let p = parents[j];
        assert(-1 <= p < j);
        assert(self.passable(origin, trace[j]));
        if p >= 0 {
            self.lemma_path_is_route(origin, trace, parents, p);
            let before = path_to(trace, parents, p);
            assert(route == before.push(trace[j]));
            assert forall|k: int| 0 <= k < route.len() implies self.passable(
                origin,
                #[trigger] route[k],
            ) by {
                if k < before.len() {
                    assert(route[k] == before[k]);
                }
            }
            assert forall|k: int| 0 < k < route.len() implies self.source(#[trigger] route[k])
                == self.target(route[k - 1]) by {
                if k < before.len() {
                    assert(route[k] == before[k] && route[k - 1] == before[k - 1]);
                } else {
                    assert(route[k - 1] == before.last());
                }
            }
            assert(route[0] == before[0]);
        } else {
            assert(path_to(trace, parents, p) =~= Seq::<EdgeRef>::empty());
            assert(depth(parents, p) == 0);
            assert(route =~= seq![trace[j]]);
        }
    }

    /// A node that stands later in the order of expansion is no nearer to the
    /// origin.
    pub proof fn lemma_depth_grows(
        self,
        origin: NodeRef,
        trace: Seq<EdgeRef>,
        parents: Seq<int>,
        a: int,
        b: int,
    )
        requires
            self.is_tree(origin, trace, parents),
            -1 <= a <= b < trace.len(),
        ensures
            depth(parents, a) <= depth(parents, b),
        decreases b + 1,
    {
        if 0 <= a && a < b {
            assert(parents[a] <= parents[b]);
            assert(-1 <= parents[a] < a && -1 <= parents[b] < b);
            self.lemma_depth_grows(origin, trace, parents, parents[a], parents[b]);
        }
    }

    /// The chain that leads back from the last edge of a tree is the way
    /// back along the tree.
    pub proof fn lemma_trail(
        self,
        origin: NodeRef,
        trace: Seq<EdgeRef>,
        parents: Seq<int>,
        n: nat,
        c: int,
    )
        requires
            self.is_tree(origin, trace, parents),
            0 <= c < trace.len(),
            parents[c] < n <= trace.len(),
        ensures
            self.trail(trace, n, trace[c]) == path_back(trace, parents, parents[c]),
        decreases n,
    {
        let p = parents[c];
        assert(-1 <= p < c);
        if n == 0 {
        } else {
            let e = trace[n - 1];
            assert(self.passable(origin, e));
            if n - 1 == p {
                assert(self.target(e) == self.source(trace[c]));
                assert(-1 <= parents[p] < p);
                self.lemma_trail(origin, trace, parents, (n - 1) as nat, p);
            } else {
                if p >= 0 {
                    if p < n - 1 {
                        assert(self.target(trace[p]) != self.target(trace[n - 1]));
                    } else {
                        assert(self.target(trace[n - 1]) != self.target(trace[p]));
                    }
                }
                assert(self.target(e) != self.source(trace[c]));
                self.lemma_trail(origin, trace, parents, (n - 1) as nat, c);
            }
        }
    }

    /// Backtracking over the tree of a search gives the way back from the
    /// node that its last edge enters: a route to that node, reversed.
    pub proof fn lemma_backtrack_is_route(self, origin: NodeRef, trace: Seq<EdgeRef>, parents: Seq<int>)
        requires
            self.is_tree(origin, trace, parents),
            trace.len() > 0,
        ensures
            self.backtrack(trace) == path_back(trace, parents, trace.len() - 1),
            self.backtrack(trace).len() == depth(parents, trace.len() - 1),
            self.is_route(origin, self.backtrack(trace).reverse(), self.target(trace.last())),
    {
        let m = trace.len() - 1;
        assert(-1 <= parents[m] < m);
        self.lemma_trail(origin, trace, parents, trace.len(), m);
        lemma_path_back(trace, parents, m);
        self.lemma_path_is_route(origin, trace, parents, m);
    }

    /// Where every node that the tree enters is exhausted, and the origin
    /// too, the tree enters every node to which a route leads.
    pub proof fn lemma_route_is_found(
        self,
        origin: NodeRef,
        trace: Seq<EdgeRef>,
        parents: Seq<int>,
        route: Seq<EdgeRef>,
        goal: NodeRef,
        i: int,
    )
        requires
            self.lists_valid(),
            self.is_tree(origin, trace, parents),
            self.exhausted_below(origin, trace, parents, trace.len() as int),
            self.is_route(origin, route, goal),
            0 <= i < route.len(),
        ensures
            exists|j: int| 0 <= j < trace.len() && self.target(#[trigger] trace[j]) == self.target(
                route[i],
            ),
        decreases i,
    {
        let e = route[i];
        assert(self.passable(origin, e));
        let h = if i == 0 {
            -1
        } else {
            self.lemma_route_is_found(origin, trace, parents, route, goal, i - 1);
            choose|j: int|
                0 <= j < trace.len() && self.target(#[trigger] trace[j]) == self.target(
                    route[i - 1],
                )
        };
        let node = self.node_at(origin, trace, h);
        assert(self.source(e) == node);
        assert(self.exhausted(origin, trace, parents, h));
        assert(self.outbound(node).contains(e));
        let k = choose|k: int| 0 <= k < self.outbound(node).len() && self.outbound(node)[k] == e;
        assert(self.passable(origin, self.outbound(node)[k]));
        assert(self.reached(trace, parents, self.target(e), h));
    }

    /// Where the last edge of the tree enters `goal` and every node that
    /// stands before the source of that edge is exhausted, no route to `goal`
    /// is shorter than the way along the tree: each node of a shorter route
    /// would stand in the tree no deeper than in the route.
    pub proof fn lemma_route_depth(
        self,
        origin: NodeRef,
        trace: Seq<EdgeRef>,
        parents: Seq<int>,
        route: Seq<EdgeRef>,
        goal: NodeRef,
        i: int,
    )
        requires
            self.lists_valid(),
            self.is_tree(origin, trace, parents),
            trace.len() > 0,
            self.exhausted_below(origin, trace, parents, parents.last()),
            self.is_route(origin, route, goal),
            route.len() < depth(parents, trace.len() - 1),
            0 <= i < route.len(),
        ensures
            exists|j: int|
                0 <= j < trace.len() && self.target(#[trigger] trace[j]) == self.target(route[i])
                    && depth(parents, j) <= i + 1,
        decreases i,
    {
        let m = trace.len() - 1;
        let top = parents[m];
        let e = route[i];
        assert(-1 <= top < m);
        assert(depth(parents, m) == depth(parents, top) + 1);
        assert(self.passable(origin, e));
        let h = if i == 0 {
            -1
        } else {
            self.lemma_route_depth(origin, trace, parents, route, goal, i - 1);
            choose|j: int|
                0 <= j < trace.len() && self.target(#[trigger] trace[j]) == self.target(
                    route[i - 1],
                ) && depth(parents, j) <= i
        };
        assert(depth(parents, h) <= i);
        assert(depth(parents, h) < depth(parents, top));
        if h >= top {
            self.lemma_depth_grows(origin, trace, parents, top, h);
        }
        assert(h < top);
        let node = self.node_at(origin, trace, h);
        assert(self.source(e) == node);
        assert(self.exhausted(origin, trace, parents, h));
        assert(self.outbound(node).contains(e));
        let k = choose|k: int| 0 <= k < self.outbound(node).len() && self.outbound(node)[k] == e;
        assert(self.passable(origin, self.outbound(node)[k]));
        assert(self.reached(trace, parents, self.target(e), h));
        let j = choose|j: int|
            0 <= j < trace.len() && self.target(#[trigger] trace[j]) == self.target(e)
                && parents[j] <= h;
        assert(-1 <= parents[j] < j);
        self.lemma_depth_grows(origin, trace, parents, parents[j], h);
    }

    /// Where the last edge of the tree enters `goal` and every node that
    /// stands before the source of that edge is exhausted, no route to `goal`
    /// has fewer edges than the way along the tree.
    pub proof fn lemma_tree_is_shortest(
        self,
        origin: NodeRef,
        trace: Seq<EdgeRef>,
        parents: Seq<int>,
        route: Seq<EdgeRef>,
        goal: NodeRef,
    )
        requires
            self.lists_valid(),
            self.is_tree(origin, trace, parents),
            trace.len() > 0,
            self.target(trace.last()) == goal,
            self.exhausted_below(origin, trace, parents, parents.last()),
            self.is_route(origin, route, goal),
        ensures
            depth(parents, trace.len() - 1) <= route.len(),
    {
        let m = trace.len() - 1;
        if route.len() < depth(parents, m) {
            self.lemma_route_depth(origin, trace, parents, route, goal, route.len() - 1);
            let j = choose|j: int|
                0 <= j < trace.len() && self.target(#[trigger] trace[j]) == self.target(
                    route[route.len() - 1],
                ) && depth(parents, j) <= route.len();
            if j < m {
                assert(self.target(trace[j]) != self.target(trace[m]));
            }
        }
    }
}

impl<K, N, E> GraphState<K, N, E> {
    /// A search reaches `goal` exactly when a route leads to it.
    pub proof fn lemma_search_decides(
        self,
        origin: NodeRef,
        goal: NodeRef,
        trace: Seq<EdgeRef>,
        parents: Seq<int>,
        found: bool,
    )
        requires
            self.lists_valid(),
            self.is_tree(origin, trace, parents),
            found ==> trace.len() > 0 && self.target(trace.last()) == goal,
            !found ==> self.exhausted_below(origin, trace, parents, trace.len() as int),
            !found ==> forall|j: int|
                0 <= j < trace.len() ==> self.target(#[trigger] trace[j]) != goal,
        ensures
            found <==> self.reachable(origin, goal),
    {
        if found {
            self.lemma_path_is_route(origin, trace, parents, trace.len() - 1);
        } else if self.reachable(origin, goal) {
            let route = choose|route: Seq<EdgeRef>| self.is_route(origin, route, goal);
            self.lemma_route_is_found(origin, trace, parents, route, goal, route.len() - 1);
        }
    }

    /// Backtracking reads the ends of edges only, which flags do not change.
    pub proof fn lemma_backtrack_shape(self, other: Self, list: Seq<EdgeRef>)
        requires
            other.same_shape(self),
            self.has_edges(list),
            list.len() > 0,
        ensures
            other.backtrack(list) == self.backtrack(list),
    {
        self.lemma_trail_shape(other, list, list.len(), list.last());
    }

    /// Backtracking reads the ends of edges only, which flags do not change.
    pub proof fn lemma_trail_shape(self, other: Self, list: Seq<EdgeRef>, n: nat, last: EdgeRef)
        requires
            other.same_shape(self),
            self.has_edges(list),
            self.has_edge(last),
            n <= list.len(),
        ensures
            other.trail(list, n, last) == self.trail(list, n, last),
        decreases n,
    {
        if n > 0 {
            let e = list[n - 1];
            assert(self.has_edge(e));
            assert(other.edges[e.index as int].target == self.edges[e.index as int].target);
            assert(other.edges[last.index as int].source == self.edges[last.index as int].source);
            if self.target(e) == self.source(last) {
                self.lemma_trail_shape(other, list, (n - 1) as nat, e);
            } else {
                self.lemma_trail_shape(other, list, (n - 1) as nat, last);
            }
        }
    }
}

impl<K, N, E> GraphState<K, N, E> {
    /// `trace` and `parents` are what a search from `origin` for `goal`
    /// leaves behind: a tree which, where the search reached `goal`, ends with
    /// the edge that enters it, all nodes before the source of that edge
    /// exhausted; and which, where it did not, enters `goal` nowhere, all its
    /// nodes exhausted.
    pub open spec fn is_search_tree(
        self,
        origin: NodeRef,
        goal: NodeRef,
        trace: Seq<EdgeRef>,
        parents: Seq<int>,
        found: bool,
    ) -> bool {
        &&& self.is_tree(origin, trace, parents)
        &&& found ==> {
            &&& trace.len() > 0
            &&& self.target(trace.last()) == goal
            &&& self.exhausted_below(origin, trace, parents, parents.last())
        }
        &&& !found ==> {
            &&& self.exhausted_below(origin, trace, parents, trace.len() as int)
            &&& forall|j: int| 0 <= j < trace.len() ==> self.target(#[trigger] trace[j]) != goal
        }
    }

    /// A search that stands at a tree and goes on from the position `head`
    /// ends with the tree of a search. Returns the parents of that tree.
    pub proof fn lemma_run(
        self,
        origin: NodeRef,
        goal: NodeRef,
        trace: Seq<EdgeRef>,
        parents: Seq<int>,
        head: int,
    ) -> (links: Seq<int>)
        requires
            self.wf(),
            self.has_node(origin),
            self.is_tree(origin, trace, parents),
            -1 <= head <= trace.len(),
            forall|j: int| 0 <= j < trace.len() ==> #[trigger] parents[j] < head,
            self.exhausted_below(origin, trace, parents, head),
            forall|j: int| 0 <= j < trace.len() ==> self.target(#[trigger] trace[j]) != goal,
        ensures
            self.is_search_tree(
                origin,
                goal,
                self.searching(origin, trace).run(origin, goal, trace, head).0,
                links,
                self.searching(origin, trace).run(origin, goal, trace, head).1,
            ),
        decreases self.nodes.len() - head,
    {
        let cur = self.searching(origin, trace);
        self.lemma_tree_fits(origin, trace, parents);
        if head >= trace.len() || head >= self.nodes.len() {
            parents
        } else {
            self.lemma_expand(origin, goal, trace, parents, head);
            let adj = self.outbound(self.node_at(origin, trace, head));
            let claimed = cur.expansion(adj, goal);
            let grown = trace + claimed;
            let next = Self::grown_parents(parents, claimed, head);
            let more = Seq::new(claimed.len(), |k: int| head);
            assert forall|h: int| -1 <= h < head implies #[trigger] self.exhausted(
                origin,
                grown,
                next,
                h,
            ) by {
                self.lemma_exhausted_grows(origin, trace, parents, claimed, more, h);
            }
            if cur.hits(adj, goal) {
                assert(grown.last() == claimed.last());
                assert(next.last() == head);
                next
            } else {
                assert forall|j: int| 0 <= j < grown.len() implies self.target(
                    #[trigger] grown[j],
                ) != goal by {
                    if j < trace.len() {
                        assert(grown[j] == trace[j]);
                    } else {
                        assert(grown[j] == claimed[j - trace.len()]);
                    }
                }
                self.lemma_run(origin, goal, grown, next, head + 1)
            }
        }
    }

    /// What a breadth-first search returns is the tree of a search. Returns
    /// the parents of that tree.
    pub proof fn lemma_search(self, origin: NodeRef, goal: NodeRef) -> (parents: Seq<int>)
        requires
            self.wf(),
            self.has_node(origin),
        ensures
            self.is_search_tree(
                origin,
                goal,
                self.search(origin, goal).0,
                parents,
                self.search(origin, goal).1,
            ),
    {
        let none = Seq::<EdgeRef>::empty();
        let gs = self.set_node_lock(origin, CLOSED);
        assert(gs.claim_all(none).nodes =~= gs.nodes);
        assert(gs.claim_all(none).edges =~= gs.edges);
        assert(self.searching(origin, none) == gs);
        self.lemma_run(origin, goal, none, Seq::<int>::empty(), -1)
    }
}

impl<K, N, E> GraphState<K, N, E> {
    /// What a search leaves behind and what it has found: the search
    /// reaches `goal` exactly when a route leads to it; opening what it
    /// claimed, and its origin, leaves every other flag as it was; and the
    /// chain that leads back from a goal it reached is, read backwards, a
    /// route to it of the least length.
    pub proof fn lemma_search_outcome(self, origin: NodeRef, goal: NodeRef)
        requires
            self.wf(),
            self.has_node(origin),
        ensures
            self.search(origin, goal).1 <==> self.reachable(origin, goal),
            self.searching(origin, self.search(origin, goal).0).endpoints_valid(),
            self.searching(origin, self.search(origin, goal).0).has_edges(
                self.search(origin, goal).0,
            ),
            self.searching(origin, self.search(origin, goal).0).set_all(
                self.search(origin, goal).0,
                OPEN,
            ).set_node_lock(origin, OPEN) == self.set_node_lock(origin, OPEN),
            self.set_node_lock(origin, OPEN).wf(),
            self.all_open() ==> self.set_node_lock(origin, OPEN).all_open(),
            self.search(origin, goal).1 ==> {
                &&& self.search(origin, goal).0.len() > 0
                &&& self.searching(origin, self.search(origin, goal).0).backtrack(
                    self.search(origin, goal).0,
                ) == self.backtrack(self.search(origin, goal).0)
                &&& self.is_route(
                    origin,
                    self.backtrack(self.search(origin, goal).0).reverse(),
                    goal,
                )
                &&& forall|route: Seq<EdgeRef>| #[trigger]
                    self.is_route(origin, route, goal) ==> self.backtrack(
                        self.search(origin, goal).0,
                    ).len() <= route.len()
            },
    {
        let trace = self.search(origin, goal).0;
        let found = self.search(origin, goal).1;
        let parents = self.lemma_search(origin, goal);
        self.lemma_search_decides(origin, goal, trace, parents, found);
        self.lemma_search_restores(origin, trace, parents);
        self.lemma_node_setters_shape(origin, OPEN, self.node(origin).data);
        self.set_node_lock(origin, OPEN).lemma_same_shape_wf(self);
        if self.all_open() {
            self.lemma_all_open(origin);
        }
        if found {
            self.lemma_searching(origin, trace);
            self.lemma_backtrack_shape(self.searching(origin, trace), trace);
            self.lemma_backtrack_is_route(origin, trace, parents);
            assert forall|route: Seq<EdgeRef>| #[trigger]
                self.is_route(origin, route, goal) implies self.backtrack(trace).len()
                <= route.len() by {
                self.lemma_tree_is_shortest(origin, trace, parents, route, goal);
            }
        }
    }
}

} // verus!
