//! Why the operations of the library keep a graph well formed.

use vstd::prelude::*;
use crate::handle::{EdgeRef, NodeRef};
use crate::model::GraphState;

verus! {

/// A new edge between two nodes that no edge joins yet keeps the graph well
/// formed.
pub proof fn lemma_connect_wf<K, N, E>(g: GraphState<K, N, E>, s: NodeRef, t: NodeRef, data: E)
    requires
        g.wf(),
        g.has_node(s),
        g.has_node(t),
        !g.adjacent(s, t),
        g.edges.len() < usize::MAX,
    ensures
        g.connect(s, t, data).wf(),
{
    let h = g.connect(s, t, data);
    let e = g.next_edge();
    assert(h.outbound(s) == g.outbound(s).push(e));
    assert(h.inbound(t) == g.inbound(t).push(e));
    assert forall|n: NodeRef| #[trigger] h.has_node(n) implies {
        &&& n != s ==> h.outbound(n) == g.outbound(n)
        &&& n != t ==> h.inbound(n) == g.inbound(n)
    } by {}
    assert(h.endpoints_valid()) by {
        assert forall|x: EdgeRef| #[trigger] h.has_edge(x) implies h.has_node(h.source(x))
            && h.has_node(h.target(x)) by {
            if x != e {
                assert(g.has_edge(x));
            }
        }
    }
    assert(h.lists_valid()) by {
        assert forall|n: NodeRef| #[trigger] h.has_node(n) implies {
            &&& forall|k: int|
                0 <= k < h.outbound(n).len() ==> {
                    &&& h.has_edge(#[trigger] h.outbound(n)[k])
                    &&& h.source(h.outbound(n)[k]) == n
                }
            &&& forall|k: int|
                0 <= k < h.inbound(n).len() ==> {
                    &&& h.has_edge(#[trigger] h.inbound(n)[k])
                    &&& h.target(h.inbound(n)[k]) == n
                }
        } by {
            assert(g.has_node(n));
            assert forall|k: int| 0 <= k < h.outbound(n).len() implies {
                &&& h.has_edge(#[trigger] h.outbound(n)[k])
                &&& h.source(h.outbound(n)[k]) == n
            } by {
                if k < g.outbound(n).len() {
                    assert(g.has_edge(g.outbound(n)[k]));
                }
            }
            assert forall|k: int| 0 <= k < h.inbound(n).len() implies {
                &&& h.has_edge(#[trigger] h.inbound(n)[k])
                &&& h.target(h.inbound(n)[k]) == n
            } by {
                if k < g.inbound(n).len() {
                    assert(g.has_edge(g.inbound(n)[k]));
                }
            }
        }
    }
    assert(h.mirrored()) by {
        assert forall|x: EdgeRef| #[trigger] h.has_edge(x) implies (h.leaves_source(x)
            <==> h.enters_target(x)) by {
            if x == e {
                assert(h.outbound(s)[g.outbound(s).len() as int] == e);
                assert(h.inbound(t)[g.inbound(t).len() as int] == e);
            } else {
                assert(g.has_edge(x));
                let xs = g.source(x);
                let xt = g.target(x);
                assert(g.has_node(xs) && g.has_node(xt));
                lemma_push_contains(g.outbound(xs), e, x);
                lemma_push_contains(g.inbound(xt), e, x);
            }
        }
    }
    assert(h.no_parallel_edges()) by {
        assert forall|n: NodeRef| #[trigger] h.has_node(n) implies {
            &&& forall|i: int, j: int|
                0 <= i < j < h.outbound(n).len() ==> h.target(#[trigger] h.outbound(n)[i])
                    != h.target(#[trigger] h.outbound(n)[j])
            &&& forall|i: int, j: int|
                0 <= i < j < h.inbound(n).len() ==> h.source(#[trigger] h.inbound(n)[i])
                    != h.source(#[trigger] h.inbound(n)[j])
        } by {
            assert(g.has_node(n));
            assert forall|i: int, j: int| 0 <= i < j < h.outbound(n).len() implies h.target(
                #[trigger] h.outbound(n)[i],
            ) != h.target(#[trigger] h.outbound(n)[j]) by {
                assert(g.has_edge(g.outbound(n)[i]));
                if j < g.outbound(n).len() {
                    assert(g.has_edge(g.outbound(n)[j]));
                }
            }
            assert forall|i: int, j: int| 0 <= i < j < h.inbound(n).len() implies h.source(
                #[trigger] h.inbound(n)[i],
            ) != h.source(#[trigger] h.inbound(n)[j]) by {
                let x = g.inbound(n)[i];
                assert(g.has_edge(x));
                if j < g.inbound(n).len() {
                    assert(g.has_edge(g.inbound(n)[j]));
                } else {
                    // an edge from `s` already in the inbound list of `t`
                    // would be in the outbound list of `s` as well
                    if g.source(x) == s {
                        assert(g.enters_target(x));
                        assert(g.leaves_source(x));
                        let k = choose|k: int|
                            0 <= k < g.outbound(s).len() && g.outbound(s)[k] == x;
                        assert(g.target(g.outbound(s)[k]) == t);
                    }
                }
            }
        }
    }
}

/// What a list holds after a push: what it held, and the new entry.
pub proof fn lemma_push_contains(list: Seq<EdgeRef>, e: EdgeRef, x: EdgeRef)
    ensures
        list.push(e).contains(x) <==> (list.contains(x) || x == e),
{
    if list.contains(x) {
        let k = choose|k: int| 0 <= k < list.len() && list[k] == x;
        assert(list.push(e)[k] == x);
    }
    if x == e {
        assert(list.push(e)[list.len() as int] == x);
    }
    if list.push(e).contains(x) {
        let k = choose|k: int| 0 <= k < list.push(e).len() && list.push(e)[k] == x;
        if k < list.len() {
            assert(list[k] == x);
        }
    }
}

/// What a list holds after a removal: the entries at the other positions.
pub proof fn lemma_remove_contains(list: Seq<EdgeRef>, i: int, x: EdgeRef)
    requires
        0 <= i < list.len(),
    ensures
        list.remove(i).contains(x) <==> exists|k: int|
            0 <= k < list.len() && k != i && #[trigger] list[k] == x,
{
    let short = list.remove(i);
    if short.contains(x) {
        let k = choose|k: int| 0 <= k < short.len() && short[k] == x;
        if k < i {
            assert(list[k] == x);
        } else {
            assert(list[k + 1] == x);
        }
    }
    if exists|k: int| 0 <= k < list.len() && k != i && #[trigger] list[k] == x {
        let k = choose|k: int| 0 <= k < list.len() && k != i && #[trigger] list[k] == x;
        if k < i {
            assert(short[k] == x);
        } else {
            assert(short[k - 1] == x);
        }
    }
}

impl<K, N, E> GraphState<K, N, E> {
    /// Where some edge of `list` enters `t`, one of them is the first.
    pub proof fn lemma_first_with_target(self, list: Seq<EdgeRef>, t: NodeRef, k: int)
        requires
            0 <= k < list.len(),
            self.target(list[k]) == t,
        ensures
            exists|i: int| 0 <= i <= k && self.first_with_target(list, t, i),
        decreases k,
    {
        if exists|j: int| 0 <= j < k && self.target(#[trigger] list[j]) == t {
            let j = choose|j: int| 0 <= j < k && self.target(#[trigger] list[j]) == t;
            self.lemma_first_with_target(list, t, j);
        } else {
            assert(self.first_with_target(list, t, k));
        }
    }

    /// Where some edge of `list` leaves `s`, one of them is the first.
    pub proof fn lemma_first_with_source(self, list: Seq<EdgeRef>, s: NodeRef, k: int)
        requires
            0 <= k < list.len(),
            self.source(list[k]) == s,
        ensures
            exists|i: int| 0 <= i <= k && self.first_with_source(list, s, i),
        decreases k,
    {
        if exists|j: int| 0 <= j < k && self.source(#[trigger] list[j]) == s {
            let j = choose|j: int| 0 <= j < k && self.source(#[trigger] list[j]) == s;
            self.lemma_first_with_source(list, s, j);
        } else {
            assert(self.first_with_source(list, s, k));
        }
    }

    /// In a well-formed graph in which an edge joins `s` to `t`, the first
    /// edge to `t` in the outbound list of `s` and the first edge from `s` in
    /// the inbound list of `t` are one and the same edge.
    pub proof fn lemma_disconnect_positions(self, s: NodeRef, t: NodeRef)
        requires
            self.wf(),
            self.has_node(s),
            self.has_node(t),
            self.adjacent(s, t),
        ensures
            self.first_with_target(self.outbound(s), t, self.first_outbound(s, t)),
            self.some_with_source(self.inbound(t), s),
            self.first_with_source(self.inbound(t), s, self.first_inbound(t, s)),
            self.outbound(s)[self.first_outbound(s, t)] == self.inbound(t)[self.first_inbound(
                t,
                s,
            )],
    {
        let k = choose|k: int|
            0 <= k < self.outbound(s).len() && self.target(#[trigger] self.outbound(s)[k]) == t;
        self.lemma_first_with_target(self.outbound(s), t, k);
        let i = self.first_outbound(s, t);
        let x = self.outbound(s)[i];
        assert(self.has_edge(x));
        assert(self.leaves_source(x));
        assert(self.enters_target(x));
        let m = choose|m: int| 0 <= m < self.inbound(t).len() && self.inbound(t)[m] == x;
        self.lemma_first_with_source(self.inbound(t), s, m);
        let j = self.first_inbound(t, s);
        assert(self.has_edge(self.inbound(t)[j]));
        if j != m {
            assert(self.source(self.inbound(t)[j]) == self.source(self.inbound(t)[m]));
        }
    }

    /// Taking an edge out of both of its adjacency lists keeps the graph well
    /// formed.
    pub proof fn lemma_disconnect_wf(self, s: NodeRef, t: NodeRef)
        requires
            self.wf(),
            self.has_node(s),
            self.has_node(t),
            self.adjacent(s, t),
        ensures
            self.disconnect(s, t).wf(),
    {
        self.lemma_disconnect_positions(s, t);
        let g = self;
        let h = self.disconnect(s, t);
        let i = self.first_outbound(s, t);
        let j = self.first_inbound(t, s);
        let x = self.outbound(s)[i];
        assert(h.edges == g.edges);
        assert(h.outbound(s) == g.outbound(s).remove(i));
        assert(h.inbound(t) == g.inbound(t).remove(j));
        assert forall|n: NodeRef| #[trigger] h.has_node(n) implies {
            &&& g.has_node(n)
            &&& n != s ==> h.outbound(n) == g.outbound(n)
            &&& n != t ==> h.inbound(n) == g.inbound(n)
            &&& h.node(n).key == g.node(n).key
        } by {}
        assert(h.endpoints_valid()) by {
            assert forall|y: EdgeRef| #[trigger] h.has_edge(y) implies h.has_node(h.source(y))
                && h.has_node(h.target(y)) by {
                assert(g.has_edge(y));
            }
        }
        assert(h.lists_valid()) by {
            assert forall|n: NodeRef| #[trigger] h.has_node(n) implies {
                &&& forall|k: int|
                    0 <= k < h.outbound(n).len() ==> {
                        &&& h.has_edge(#[trigger] h.outbound(n)[k])
                        &&& h.source(h.outbound(n)[k]) == n
                    }
                &&& forall|k: int|
                    0 <= k < h.inbound(n).len() ==> {
                        &&& h.has_edge(#[trigger] h.inbound(n)[k])
                        &&& h.target(h.inbound(n)[k]) == n
                    }
            } by {
                assert(g.has_node(n));
                assert forall|k: int| 0 <= k < h.outbound(n).len() implies {
                    &&& h.has_edge(#[trigger] h.outbound(n)[k])
                    &&& h.source(h.outbound(n)[k]) == n
                } by {
                    if n == s && k >= i {
                        assert(g.has_edge(g.outbound(n)[k + 1]));
                    } else {
                        assert(g.has_edge(g.outbound(n)[k]));
                    }
                }
                assert forall|k: int| 0 <= k < h.inbound(n).len() implies {
                    &&& h.has_edge(#[trigger] h.inbound(n)[k])
                    &&& h.target(h.inbound(n)[k]) == n
                } by {
                    if n == t && k >= j {
                        assert(g.has_edge(g.inbound(n)[k + 1]));
                    } else {
                        assert(g.has_edge(g.inbound(n)[k]));
                    }
                }
            }
        }
        assert(h.no_parallel_edges()) by {
            assert forall|n: NodeRef| #[trigger] h.has_node(n) implies {
                &&& forall|a: int, b: int|
                    0 <= a < b < h.outbound(n).len() ==> h.target(#[trigger] h.outbound(n)[a])
                        != h.target(#[trigger] h.outbound(n)[b])
                &&& forall|a: int, b: int|
                    0 <= a < b < h.inbound(n).len() ==> h.source(#[trigger] h.inbound(n)[a])
                        != h.source(#[trigger] h.inbound(n)[b])
            } by {
                assert(g.has_node(n));
                assert forall|a: int, b: int| 0 <= a < b < h.outbound(n).len() implies h.target(
                    #[trigger] h.outbound(n)[a],
                ) != h.target(#[trigger] h.outbound(n)[b]) by {
                    let a0 = if n == s && a >= i { a + 1 } else { a };
                    let b0 = if n == s && b >= i { b + 1 } else { b };
                    assert(h.outbound(n)[a] == g.outbound(n)[a0]);
                    assert(h.outbound(n)[b] == g.outbound(n)[b0]);
                    assert(g.target(g.outbound(n)[a0]) != g.target(g.outbound(n)[b0]));
                }
                assert forall|a: int, b: int| 0 <= a < b < h.inbound(n).len() implies h.source(
                    #[trigger] h.inbound(n)[a],
                ) != h.source(#[trigger] h.inbound(n)[b]) by {
                    let a0 = if n == t && a >= j { a + 1 } else { a };
                    let b0 = if n == t && b >= j { b + 1 } else { b };
                    assert(h.inbound(n)[a] == g.inbound(n)[a0]);
                    assert(h.inbound(n)[b] == g.inbound(n)[b0]);
                    assert(g.source(g.inbound(n)[a0]) != g.source(g.inbound(n)[b0]));
                }
            }
        }
        assert(h.mirrored()) by {
            assert forall|y: EdgeRef| #[trigger] h.has_edge(y) implies (h.leaves_source(y)
                <==> h.enters_target(y)) by {
                assert(g.has_edge(y));
                let ys = g.source(y);
                let yt = g.target(y);
                assert(g.has_node(ys) && g.has_node(yt));
                assert(g.has_edge(x));
                lemma_remove_contains(g.outbound(s), i, y);
                lemma_remove_contains(g.inbound(t), j, y);
                if y == x {
                    if h.leaves_source(y) {
                        let k = choose|k: int|
                            0 <= k < g.outbound(s).len() && k != i && #[trigger] g.outbound(s)[k]
                                == y;
                        if k < i {
                            assert(g.target(g.outbound(s)[k]) != g.target(g.outbound(s)[i]));
                        } else {
                            assert(g.target(g.outbound(s)[i]) != g.target(g.outbound(s)[k]));
                        }
                    }
                    if h.enters_target(y) {
                        let k = choose|k: int|
                            0 <= k < g.inbound(t).len() && k != j && #[trigger] g.inbound(t)[k]
                                == y;
                        if k < j {
                            assert(g.source(g.inbound(t)[k]) != g.source(g.inbound(t)[j]));
                        } else {
                            assert(g.source(g.inbound(t)[j]) != g.source(g.inbound(t)[k]));
                        }
                    }
                } else {
                    if g.leaves_source(y) {
                        let k = choose|k: int|
                            0 <= k < g.outbound(ys).len() && g.outbound(ys)[k] == y;
                        assert(g.outbound(ys)[k] == y);
                    }
                    if g.enters_target(y) {
                        let k = choose|k: int|
                            0 <= k < g.inbound(yt).len() && g.inbound(yt)[k] == y;
                        assert(g.inbound(yt)[k] == y);
                    }
                }
            }
        }
    }
}

impl<K, N, E> GraphState<K, N, E> {
    /// A new node keeps the graph well formed, and under a key that no node
    /// has it keeps the keys apart.
    pub proof fn lemma_add_node_wf(self, key: K, data: N)
        requires
            self.wf(),
            self.nodes.len() < usize::MAX,
        ensures
            self.add_node(key, data).wf(),
            self.keys_unique() && !self.has_key(key) ==> self.add_node(key, data).keys_unique(),
    {
        let g = self;
        let h = self.add_node(key, data);
        let fresh = self.next_node();
        assert forall|n: NodeRef| #[trigger] h.has_node(n) && n != fresh implies g.has_node(n)
            && h.node(n) == g.node(n) by {}
        assert(h.outbound(fresh).len() == 0 && h.inbound(fresh).len() == 0);
        if self.keys_unique() && !self.has_key(key) {
            assert forall|a: NodeRef, b: NodeRef|
                h.has_node(a) && h.has_node(b) && #[trigger] h.node(a).key == #[trigger] h.node(
                    b,
                ).key implies a == b by {
                if a != fresh && b != fresh {
                    assert(g.node(a).key == g.node(b).key);
                } else if a != fresh {
                    assert(g.has_node(a) && g.node(a).key == key);
                } else if b != fresh {
                    assert(g.has_node(b) && g.node(b).key == key);
                }
            }
        }
        assert(h.endpoints_valid()) by {
            assert forall|y: EdgeRef| #[trigger] h.has_edge(y) implies h.has_node(h.source(y))
                && h.has_node(h.target(y)) by {
                assert(g.has_edge(y));
            }
        }
        assert(h.lists_valid()) by {
            assert forall|n: NodeRef| #[trigger] h.has_node(n) implies {
                &&& forall|k: int|
                    0 <= k < h.outbound(n).len() ==> {
                        &&& h.has_edge(#[trigger] h.outbound(n)[k])
                        &&& h.source(h.outbound(n)[k]) == n
                    }
                &&& forall|k: int|
                    0 <= k < h.inbound(n).len() ==> {
                        &&& h.has_edge(#[trigger] h.inbound(n)[k])
                        &&& h.target(h.inbound(n)[k]) == n
                    }
            } by {
                if n != fresh {
                    assert(g.has_node(n));
                    assert(h.node(n) == g.node(n));
                    assert forall|k: int| 0 <= k < h.outbound(n).len() implies {
                        &&& h.has_edge(#[trigger] h.outbound(n)[k])
                        &&& h.source(h.outbound(n)[k]) == n
                    } by {
                        assert(g.has_edge(g.outbound(n)[k]));
                    }
                    assert forall|k: int| 0 <= k < h.inbound(n).len() implies {
                        &&& h.has_edge(#[trigger] h.inbound(n)[k])
                        &&& h.target(h.inbound(n)[k]) == n
                    } by {
                        assert(g.has_edge(g.inbound(n)[k]));
                    }
                } else {
                    assert(h.outbound(n).len() == 0 && h.inbound(n).len() == 0);
                }
            }
        }
        assert(h.no_parallel_edges()) by {
            assert forall|n: NodeRef| #[trigger] h.has_node(n) implies {
                &&& forall|a: int, b: int|
                    0 <= a < b < h.outbound(n).len() ==> h.target(#[trigger] h.outbound(n)[a])
                        != h.target(#[trigger] h.outbound(n)[b])
                &&& forall|a: int, b: int|
                    0 <= a < b < h.inbound(n).len() ==> h.source(#[trigger] h.inbound(n)[a])
                        != h.source(#[trigger] h.inbound(n)[b])
            } by {
                if n != fresh {
                    assert(g.has_node(n));
                    assert(h.node(n) == g.node(n));
                    assert forall|a: int, b: int| 0 <= a < b < h.outbound(n).len() implies h.target(
                        #[trigger] h.outbound(n)[a],
                    ) != h.target(#[trigger] h.outbound(n)[b]) by {
                        assert(g.target(g.outbound(n)[a]) != g.target(g.outbound(n)[b]));
                    }
                    assert forall|a: int, b: int| 0 <= a < b < h.inbound(n).len() implies h.source(
                        #[trigger] h.inbound(n)[a],
                    ) != h.source(#[trigger] h.inbound(n)[b]) by {
                        assert(g.source(g.inbound(n)[a]) != g.source(g.inbound(n)[b]));
                    }
                } else {
                    assert(h.outbound(n).len() == 0 && h.inbound(n).len() == 0);
                }
            }
        }
        assert(h.mirrored()) by {
            assert forall|y: EdgeRef| #[trigger] h.has_edge(y) implies (h.leaves_source(y)
                <==> h.enters_target(y)) by {
                assert(g.has_edge(y));
                assert(g.has_node(g.source(y)) && g.has_node(g.target(y)));
            }
        }
    }
}

impl<K, N, E> GraphState<K, N, E> {
    /// Marking an empty list changes nothing.
    pub proof fn lemma_mark_none(self, edges: bool, nodes: bool, lock: bool)
        ensures
            self.mark(Seq::<EdgeRef>::empty(), edges, nodes, lock) == self,
    {
        let none = Seq::<EdgeRef>::empty();
        assert(self.set_edges(none, lock).edges =~= self.edges);
        assert(self.set_nodes(none, lock).nodes =~= self.nodes);
        assert(self.set_edges(none, lock).set_nodes(none, lock).nodes =~= self.nodes);
    }

    /// Setting the flags of edges leaves their ends, and so the nodes that a
    /// list touches, as they were.
    pub proof fn lemma_set_edges_touched(self, marked: Seq<EdgeRef>, lock: bool, list: Seq<EdgeRef>)
        requires
            self.has_edges(list),
        ensures
            forall|i: int|
                self.set_edges(marked, lock).names_node(list, i) <==> self.names_node(list, i),
    {
        let h = self.set_edges(marked, lock);
        assert forall|k: int| 0 <= k < list.len() implies h.source(#[trigger] list[k])
            == self.source(list[k]) && h.target(list[k]) == self.target(list[k]) by {
            assert(self.has_edge(list[k]));
        }
        assert forall|i: int| h.names_node(list, i) <==> self.names_node(list, i) by {
            if h.names_node(list, i) {
                let k = choose|k: int|
                    0 <= k < list.len() && (h.source(#[trigger] list[k]).index == i || h.target(
                        list[k],
                    ).index == i);
                assert(self.source(list[k]).index == i || self.target(list[k]).index == i);
            }
            if self.names_node(list, i) {
                let k = choose|k: int|
                    0 <= k < list.len() && (self.source(#[trigger] list[k]).index == i
                        || self.target(list[k]).index == i);
                assert(h.source(list[k]).index == i || h.target(list[k]).index == i);
            }
        }
    }

    /// Marking one entry more is marking that edge, then the node it enters,
    /// then the node it leaves.
    pub proof fn lemma_mark_next(self, list: Seq<EdgeRef>, i: int, edges: bool, nodes: bool, lock: bool)
        requires
            self.endpoints_valid(),
            self.has_edges(list),
            0 <= i < list.len(),
        ensures
            self.mark(list.take(i + 1), edges, nodes, lock) == ({
                let before = self.mark(list.take(i), edges, nodes, lock);
                let marked = if edges {
                    before.set_edge_lock(list[i], lock)
                } else {
                    before
                };
                if nodes {
                    marked.set_node_lock(self.target(list[i]), lock).set_node_lock(
                        self.source(list[i]),
                        lock,
                    )
                } else {
                    marked
                }
            }),
    {
        let e = list[i];
        let short = list.take(i);
        let long = list.take(i + 1);
        let before = self.mark(short, edges, nodes, lock);
        let after = self.mark(long, edges, nodes, lock);
        let marked = if edges {
            before.set_edge_lock(e, lock)
        } else {
            before
        };
        let done = if nodes {
            marked.set_node_lock(self.target(e), lock).set_node_lock(self.source(e), lock)
        } else {
            marked
        };
        assert(self.has_edge(e));
        assert(self.has_node(self.source(e)) && self.has_node(self.target(e)));
        assert(long =~= short.push(e));
        assert forall|m: int| Self::names_edge(long, m) <==> (Self::names_edge(short, m)
            || e.index == m) by {
            if Self::names_edge(short, m) {
                let k = choose|k: int| 0 <= k < short.len() && (#[trigger] short[k]).index == m;
                assert(long[k] == short[k]);
            }
            if e.index == m {
                assert(long[i] == e);
            }
            if Self::names_edge(long, m) {
                let k = choose|k: int| 0 <= k < long.len() && (#[trigger] long[k]).index == m;
                if k < i {
                    assert(short[k] == long[k]);
                }
            }
        }
        assert forall|m: int| self.names_node(long, m) <==> (self.names_node(short, m)
            || self.source(e).index == m || self.target(e).index == m) by {
            if self.names_node(short, m) {
                let k = choose|k: int|
                    0 <= k < short.len() && (self.source(#[trigger] short[k]).index == m
                        || self.target(short[k]).index == m);
                assert(long[k] == short[k]);
            }
            if self.source(e).index == m || self.target(e).index == m {
                assert(long[i] == e);
            }
            if self.names_node(long, m) {
                let k = choose|k: int|
                    0 <= k < long.len() && (self.source(#[trigger] long[k]).index == m
                        || self.target(long[k]).index == m);
                if k < i {
                    assert(short[k] == long[k]);
                }
            }
        }
        assert(short.len() == i && long.len() == i + 1);
        assert(self.has_edges(short) && self.has_edges(long)) by {
            assert forall|k: int| 0 <= k < short.len() implies self.has_edge(
                #[trigger] short[k],
            ) by {
                assert(short[k] == list[k]);
            }
            assert forall|k: int| 0 <= k < long.len() implies self.has_edge(
                #[trigger] long[k],
            ) by {
                assert(long[k] == list[k]);
            }
        }
        self.lemma_set_edges_touched(short, lock, short);
        self.lemma_set_edges_touched(long, lock, long);
        assert(after.edges =~= done.edges);
        assert(after.nodes =~= done.nodes);
    }
}

impl<K, N, E> GraphState<K, N, E> {
    /// The adjacency lists of a node hold handles of edges of the graph.
    pub proof fn lemma_lists_named(self, n: NodeRef)
        requires
            self.lists_valid(),
            self.has_node(n),
        ensures
            self.has_edges(self.outbound(n)),
            self.has_edges(self.inbound(n)),
    {
    }

    /// Setting the flag or the payload of a node leaves the shape as it is.
    pub proof fn lemma_node_setters_shape(self, n: NodeRef, lock: bool, data: N)
        requires
            self.has_node(n),
        ensures
            self.set_node_lock(n, lock).same_shape(self),
            self.store(n, data).same_shape(self),
    {
    }

    /// Setting the flag of an edge leaves the shape as it is.
    pub proof fn lemma_edge_setter_shape(self, e: EdgeRef, lock: bool)
        requires
            self.has_edge(e),
        ensures
            self.set_edge_lock(e, lock).same_shape(self),
    {
    }

    /// Marking the edges of a list, or the nodes at their ends, leaves the
    /// shape as it is.
    pub proof fn lemma_mark_shape(self, list: Seq<EdgeRef>, edges: bool, nodes: bool, lock: bool)
        ensures
            self.mark(list, edges, nodes, lock).same_shape(self),
    {
    }

    /// Graphs that differ in flags and payloads at most are well formed
    /// together.
    pub proof fn lemma_same_shape_wf(self, other: Self)
        requires
            self.same_shape(other),
            other.wf(),
        ensures
            self.wf(),
    {
        let g = other;
        let h = self;
        assert forall|n: NodeRef| #[trigger] h.has_node(n) implies {
            &&& g.has_node(n)
            &&& h.outbound(n) == g.outbound(n)
            &&& h.inbound(n) == g.inbound(n)
            &&& h.node(n).key == g.node(n).key
        } by {
            assert(h.nodes[n.index as int].outbound == g.nodes[n.index as int].outbound);
        }
        assert forall|e: EdgeRef| #[trigger] h.has_edge(e) implies {
            &&& g.has_edge(e)
            &&& h.source(e) == g.source(e)
            &&& h.target(e) == g.target(e)
        } by {
            assert(h.edges[e.index as int].source == g.edges[e.index as int].source);
        }
        assert(h.endpoints_valid());
        assert(h.lists_valid()) by {
            assert forall|n: NodeRef| #[trigger] h.has_node(n) implies {
                &&& forall|k: int|
                    0 <= k < h.outbound(n).len() ==> {
                        &&& h.has_edge(#[trigger] h.outbound(n)[k])
                        &&& h.source(h.outbound(n)[k]) == n
                    }
                &&& forall|k: int|
                    0 <= k < h.inbound(n).len() ==> {
                        &&& h.has_edge(#[trigger] h.inbound(n)[k])
                        &&& h.target(h.inbound(n)[k]) == n
                    }
            } by {
                assert(g.has_node(n));
                assert forall|k: int| 0 <= k < h.outbound(n).len() implies {
                    &&& h.has_edge(#[trigger] h.outbound(n)[k])
                    &&& h.source(h.outbound(n)[k]) == n
                } by {
                    assert(g.has_edge(g.outbound(n)[k]));
                }
                assert forall|k: int| 0 <= k < h.inbound(n).len() implies {
                    &&& h.has_edge(#[trigger] h.inbound(n)[k])
                    &&& h.target(h.inbound(n)[k]) == n
                } by {
                    assert(g.has_edge(g.inbound(n)[k]));
                }
            }
        }
        assert(h.no_parallel_edges()) by {
            assert forall|n: NodeRef| #[trigger] h.has_node(n) implies {
                &&& forall|a: int, b: int|
                    0 <= a < b < h.outbound(n).len() ==> h.target(#[trigger] h.outbound(n)[a])
                        != h.target(#[trigger] h.outbound(n)[b])
                &&& forall|a: int, b: int|
                    0 <= a < b < h.inbound(n).len() ==> h.source(#[trigger] h.inbound(n)[a])
                        != h.source(#[trigger] h.inbound(n)[b])
            } by {
                assert(g.has_node(n));
                assert forall|a: int, b: int| 0 <= a < b < h.outbound(n).len() implies h.target(
                    #[trigger] h.outbound(n)[a],
                ) != h.target(#[trigger] h.outbound(n)[b]) by {
                    assert(g.has_edge(g.outbound(n)[a]) && g.has_edge(g.outbound(n)[b]));
                    assert(g.target(g.outbound(n)[a]) != g.target(g.outbound(n)[b]));
                }
                assert forall|a: int, b: int| 0 <= a < b < h.inbound(n).len() implies h.source(
                    #[trigger] h.inbound(n)[a],
                ) != h.source(#[trigger] h.inbound(n)[b]) by {
                    assert(g.has_edge(g.inbound(n)[a]) && g.has_edge(g.inbound(n)[b]));
                    assert(g.source(g.inbound(n)[a]) != g.source(g.inbound(n)[b]));
                }
            }
        }
        assert(h.mirrored()) by {
            assert forall|y: EdgeRef| #[trigger] h.has_edge(y) implies (h.leaves_source(y)
                <==> h.enters_target(y)) by {
                assert(g.has_edge(y));
                assert(g.has_node(g.source(y)) && g.has_node(g.target(y)));
                assert(h.has_node(h.source(y)) && h.has_node(h.target(y)));
            }
        }
    }
}

} // verus!
