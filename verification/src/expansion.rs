//! Why one expansion after another makes the tree of a breadth-first search.

use vstd::prelude::*;
use crate::handle::{EdgeRef, NodeRef, CLOSED, OPEN};
use crate::model::GraphState;

verus! {

impl<K, N, E> GraphState<K, N, E> {
    /// Claiming changes flags only.
    pub proof fn lemma_claim_all_shape(self, list: Seq<EdgeRef>)
        ensures
            self.claim_all(list).same_shape(self),
    {
    }

    /// What the scan of the first `n` entries of `adj` claims are the edges
    /// at the positions at which it claims.
    pub proof fn lemma_claims_members(self, adj: Seq<EdgeRef>, n: nat)
        requires
            n <= adj.len(),
        ensures
            self.claims(adj, n).len() <= n,
            forall|m: int|
                0 <= m < self.claims(adj, n).len() ==> self.claimed_in(
                    adj,
                    n,
                    #[trigger] self.claims(adj, n)[m],
                ),
            forall|j: int|
                0 <= j < n && #[trigger] self.claimed_at(adj, j) ==> self.claims(adj, n).contains(
                    adj[j],
                ),
        decreases n,
    {
        if n > 0 {
            let before = self.claims(adj, (n - 1) as nat);
            let now = self.claims(adj, n);
            self.lemma_claims_members(adj, (n - 1) as nat);
            assert forall|m: int| 0 <= m < now.len() implies self.claimed_in(
                adj,
                n,
                #[trigger] now[m],
            ) by {
                if m < before.len() {
                    assert(now[m] == before[m]);
                    assert(self.claimed_in(adj, (n - 1) as nat, before[m]));
                    let j = choose|j: int|
                        0 <= j < n - 1 && #[trigger] self.claimed_at(adj, j) && adj[j]
                            == before[m];
                    assert(self.claimed_at(adj, j) && adj[j] == now[m]);
                } else {
                    assert(self.claimed_at(adj, n - 1) && adj[n - 1] == now[m]);
                }
            }
            assert forall|j: int| 0 <= j < n && #[trigger] self.claimed_at(
                adj,
                j,
            ) implies now.contains(adj[j]) by {
                if j < n - 1 {
                    assert(before.contains(adj[j]));
                    let m = choose|m: int| 0 <= m < before.len() && before[m] == adj[j];
                    assert(now[m] == adj[j]);
                } else {
                    assert(now[before.len() as int] == adj[j]);
                }
            }
        }
    }

    /// Where a scanned edge could be claimed, the scan claims it or an edge
    /// before it that enters the same node.
    pub proof fn lemma_first_claim(self, adj: Seq<EdgeRef>, j: int)
        requires
            0 <= j < adj.len(),
            self.claimable(adj[j]),
        ensures
            exists|i: int|
                0 <= i <= j && #[trigger] self.claimed_at(adj, i) && self.target(adj[i])
                    == self.target(adj[j]),
        decreases j,
    {
        if self.claimed_at(adj, j) {
        } else {
            let i = choose|i: int|
                0 <= i < j && self.claimable(#[trigger] adj[i]) && self.target(adj[i])
                    == self.target(adj[j]);
            self.lemma_first_claim(adj, i);
        }
    }

    /// Among what a scan claims is, for every scanned edge that could be
    /// claimed, an edge that enters the same node.
    pub proof fn lemma_claims_cover(self, adj: Seq<EdgeRef>, n: nat, j: int)
        requires
            n <= adj.len(),
            0 <= j < n,
            self.claimable(adj[j]),
        ensures
            self.names_target(self.claims(adj, n), self.target(adj[j]).index as int),
    {
        let c = self.claims(adj, n);
        self.lemma_first_claim(adj, j);
        let i = choose|i: int|
            0 <= i <= j && #[trigger] self.claimed_at(adj, i) && self.target(adj[i])
                == self.target(adj[j]);
        self.lemma_claims_members(adj, n);
        assert(c.contains(adj[i]));
        let m = choose|m: int| 0 <= m < c.len() && c[m] == adj[i];
        assert(self.target(c[m]).index == self.target(adj[j]).index);
    }

    /// Two positions at which a scan claims hold edges that enter different
    /// nodes.
    pub proof fn lemma_claimed_apart(self, adj: Seq<EdgeRef>, i: int, j: int)
        requires
            0 <= i < j < adj.len(),
            self.claimed_at(adj, i),
            self.claimed_at(adj, j),
        ensures
            self.target(adj[i]) != self.target(adj[j]),
    {
        assert(self.claimable(adj[i]));
    }

    /// No two edges that a scan claims enter the same node.
    pub proof fn lemma_claims_apart(self, adj: Seq<EdgeRef>, n: nat)
        requires
            n <= adj.len(),
        ensures
            forall|a: int, b: int|
                0 <= a < b < self.claims(adj, n).len() ==> self.target(
                    #[trigger] self.claims(adj, n)[a],
                ) != self.target(#[trigger] self.claims(adj, n)[b]),
        decreases n,
    {
        if n > 0 {
            let before = self.claims(adj, (n - 1) as nat);
            let now = self.claims(adj, n);
            self.lemma_claims_apart(adj, (n - 1) as nat);
            self.lemma_claims_members(adj, (n - 1) as nat);
            assert forall|a: int, b: int| 0 <= a < b < now.len() implies self.target(
                #[trigger] now[a],
            ) != self.target(#[trigger] now[b]) by {
                if b < before.len() {
                    assert(now[a] == before[a] && now[b] == before[b]);
                } else {
                    assert(now[a] == before[a]);
                    assert(self.claimed_in(adj, (n - 1) as nat, before[a]));
                    let j = choose|j: int|
                        0 <= j < n - 1 && #[trigger] self.claimed_at(adj, j) && adj[j]
                            == before[a];
                    self.lemma_claimed_apart(adj, j, n - 1);
                }
            }
        }
    }

    /// At most one edge of a scan reaches `goal`, so a scan that reaches it at
    /// position `j` looks at `j + 1` entries.
    pub proof fn lemma_hit_is_last(self, adj: Seq<EdgeRef>, goal: NodeRef, j: int)
        requires
            0 <= j < adj.len(),
            self.hit_at(adj, goal, j),
        ensures
            self.hits(adj, goal),
            self.scanned(adj, goal) == j + 1,
    {
        let k = choose|k: int| 0 <= k < adj.len() && self.hit_at(adj, goal, k);
        if k < j {
            assert(self.claimable(adj[k]));
        } else if j < k {
            assert(self.claimable(adj[j]));
        }
    }

    /// In the state that the scan of the first `i` entries leaves, the entry
    /// at position `i` can be claimed exactly when the scan claims it, and
    /// claiming it gives the state that the scan of `i + 1` entries leaves.
    pub proof fn lemma_scan_next(self, adj: Seq<EdgeRef>, i: int)
        requires
            self.endpoints_valid(),
            self.has_edges(adj),
            0 <= i < adj.len(),
        ensures
            self.claim_all(self.claims(adj, i as nat)).target(adj[i]) == self.target(adj[i]),
            self.claim_all(self.claims(adj, i as nat)).claimable(adj[i]) <==> self.claimed_at(
                adj,
                i,
            ),
            self.claimed_at(adj, i) ==> self.claim_all(self.claims(adj, i as nat)).claim(adj[i])
                == self.claim_all(self.claims(adj, (i + 1) as nat)),
            !self.claimed_at(adj, i) ==> self.claims(adj, (i + 1) as nat) == self.claims(
                adj,
                i as nat,
            ),
    {
        let before = self.claims(adj, i as nat);
        let now = self.claims(adj, (i + 1) as nat);
        let cur = self.claim_all(before);
        let e = adj[i];
        let t = self.target(e);
        self.lemma_claims_members(adj, i as nat);
        assert(self.has_edge(e));
        assert(self.has_node(t));
        if cur.claimable(e) {
            assert(!Self::names_edge(before, e.index as int));
            assert(!self.names_target(before, t.index as int));
            assert(self.claimable(e));
            assert forall|k: int| 0 <= k < i implies !(self.claimable(#[trigger] adj[k])
                && self.target(adj[k]) == t) by {
                if self.claimable(adj[k]) && self.target(adj[k]) == t {
                    self.lemma_claims_cover(adj, i as nat, k);
                }
            }
        }
        if self.claimed_at(adj, i) {
            if Self::names_edge(before, e.index as int) {
                let m = choose|m: int| 0 <= m < before.len() && (#[trigger] before[m]).index
                    == e.index;
                assert(self.claimed_in(adj, i as nat, before[m]));
                let j = choose|j: int|
                    0 <= j < i && #[trigger] self.claimed_at(adj, j) && adj[j] == before[m];
                assert(self.claimable(adj[j]) && adj[j] == e);
            }
            if self.names_target(before, t.index as int) {
                let m = choose|m: int|
                    0 <= m < before.len() && self.target(#[trigger] before[m]).index == t.index;
                assert(self.claimed_in(adj, i as nat, before[m]));
                let j = choose|j: int|
                    0 <= j < i && #[trigger] self.claimed_at(adj, j) && adj[j] == before[m];
                self.lemma_claimed_apart(adj, j, i);
            }
            assert(cur.claimable(e));
            let next = cur.claim(e);
            let all = self.claim_all(now);
            assert(now == before.push(e));
            assert forall|m: int| Self::names_edge(now, m) <==> (Self::names_edge(before, m)
                || e.index == m) by {
                if Self::names_edge(before, m) {
                    let k = choose|k: int|
                        0 <= k < before.len() && (#[trigger] before[k]).index == m;
                    assert(now[k] == before[k]);
                }
                if e.index == m {
                    assert(now[before.len() as int] == e);
                }
                if Self::names_edge(now, m) {
                    let k = choose|k: int| 0 <= k < now.len() && (#[trigger] now[k]).index == m;
                    if k < before.len() {
                        assert(before[k] == now[k]);
                    }
                }
            }
            assert forall|m: int| self.names_target(now, m) <==> (self.names_target(before, m)
                || t.index == m) by {
                if self.names_target(before, m) {
                    let k = choose|k: int|
                        0 <= k < before.len() && self.target(#[trigger] before[k]).index == m;
                    assert(now[k] == before[k]);
                }
                if t.index == m {
                    assert(now[before.len() as int] == e);
                }
                if self.names_target(now, m) {
                    let k = choose|k: int|
                        0 <= k < now.len() && self.target(#[trigger] now[k]).index == m;
                    if k < before.len() {
                        assert(before[k] == now[k]);
                    }
                }
            }
            assert(next.edges =~= all.edges);
            assert(next.nodes =~= all.nodes);
        }
    }

    /// What one expansion claims: edges of `adj` that could be claimed, no
    /// two of which enter the same node. Where the expansion reaches `goal`,
    /// it does so by the last edge it claims; where it does not, no edge it
    /// claims enters `goal`, and for every edge of `adj` that could be
    /// claimed it claims one that enters the same node.
    pub proof fn lemma_expansion(self, adj: Seq<EdgeRef>, goal: NodeRef)
        ensures
            self.scanned(adj, goal) <= adj.len(),
            forall|m: int|
                0 <= m < self.expansion(adj, goal).len() ==> adj.contains(
                    #[trigger] self.expansion(adj, goal)[m],
                ) && self.claimable(self.expansion(adj, goal)[m]),
            forall|a: int, b: int|
                0 <= a < b < self.expansion(adj, goal).len() ==> self.target(
                    #[trigger] self.expansion(adj, goal)[a],
                ) != self.target(#[trigger] self.expansion(adj, goal)[b]),
            self.hits(adj, goal) ==> self.expansion(adj, goal).len() > 0 && self.target(
                self.expansion(adj, goal).last(),
            ) == goal,
            !self.hits(adj, goal) ==> forall|m: int|
                0 <= m < self.expansion(adj, goal).len() ==> self.target(
                    #[trigger] self.expansion(adj, goal)[m],
                ) != goal,
            !self.hits(adj, goal) ==> forall|k: int|
                0 <= k < adj.len() && self.claimable(#[trigger] adj[k]) ==> self.names_target(
                    self.expansion(adj, goal),
                    self.target(adj[k]).index as int,
                ),
    {
        let n = self.scanned(adj, goal);
        let c = self.expansion(adj, goal);
        self.lemma_claims_members(adj, n);
        self.lemma_claims_apart(adj, n);
        assert forall|m: int| 0 <= m < c.len() implies adj.contains(#[trigger] c[m])
            && self.claimable(c[m]) by {
            assert(self.claimed_in(adj, n, c[m]));
            let j = choose|j: int|
                0 <= j < n && #[trigger] self.claimed_at(adj, j) && adj[j] == c[m];
            assert(adj[j] == c[m]);
        }
        if self.hits(adj, goal) {
            let j = choose|j: int| 0 <= j < adj.len() && self.hit_at(adj, goal, j);
            assert(n == j + 1);
            assert(c == self.claims(adj, j as nat).push(adj[j]));
            assert(c.last() == adj[j]);
        } else {
            assert forall|m: int| 0 <= m < c.len() implies self.target(#[trigger] c[m])
                != goal by {
                assert(self.claimed_in(adj, n, c[m]));
                let j = choose|j: int|
                    0 <= j < n && #[trigger] self.claimed_at(adj, j) && adj[j] == c[m];
                assert(!self.hit_at(adj, goal, j));
            }
            assert forall|k: int| 0 <= k < adj.len() && self.claimable(
                #[trigger] adj[k],
            ) implies self.names_target(c, self.target(adj[k]).index as int) by {
                self.lemma_claims_cover(adj, n, k);
            }
        }
    }

    /// Claiming one list of edges after another is claiming both lists.
    pub proof fn lemma_claim_all_twice(self, first: Seq<EdgeRef>, second: Seq<EdgeRef>)
        requires
            self.has_edges(second),
        ensures
            self.claim_all(first).claim_all(second) == self.claim_all(first + second),
    {
        let mid = self.claim_all(first);
        let both = first + second;
        assert forall|k: int| 0 <= k < second.len() implies mid.target(#[trigger] second[k])
            == self.target(second[k]) by {
            assert(self.has_edge(second[k]));
        }
        assert forall|i: int| Self::names_edge(both, i) <==> (Self::names_edge(first, i)
            || Self::names_edge(second, i)) by {
            if Self::names_edge(first, i) {
                let k = choose|k: int| 0 <= k < first.len() && (#[trigger] first[k]).index == i;
                assert(both[k] == first[k]);
            }
            if Self::names_edge(second, i) {
                let k = choose|k: int|
                    0 <= k < second.len() && (#[trigger] second[k]).index == i;
                assert(both[first.len() + k] == second[k]);
            }
            if Self::names_edge(both, i) {
                let k = choose|k: int| 0 <= k < both.len() && (#[trigger] both[k]).index == i;
                if k < first.len() {
                    assert(first[k] == both[k]);
                } else {
                    assert(second[k - first.len()] == both[k]);
                }
            }
        }
        assert forall|i: int| self.names_target(both, i) <==> (self.names_target(first, i)
            || mid.names_target(second, i)) by {
            if self.names_target(first, i) {
                let k = choose|k: int|
                    0 <= k < first.len() && self.target(#[trigger] first[k]).index == i;
                assert(both[k] == first[k]);
            }
            if mid.names_target(second, i) {
                let k = choose|k: int|
                    0 <= k < second.len() && mid.target(#[trigger] second[k]).index == i;
                assert(both[first.len() + k] == second[k]);
            }
            if self.names_target(both, i) {
                let k = choose|k: int|
                    0 <= k < both.len() && self.target(#[trigger] both[k]).index == i;
                if k < first.len() {
                    assert(first[k] == both[k]);
                } else {
                    assert(second[k - first.len()] == both[k]);
                }
            }
        }
        assert(mid.claim_all(second).nodes =~= self.claim_all(both).nodes);
        assert(mid.claim_all(second).edges =~= self.claim_all(both).edges);
    }

    /// The flags in the state in which a search stands: an edge is open
    /// where it was open and is not in the trace; a node is open where it was
    /// open, is not `origin`, and no edge of the trace enters it.
    pub proof fn lemma_searching(self, origin: NodeRef, trace: Seq<EdgeRef>)
        requires
            self.has_node(origin),
            self.has_edges(trace),
        ensures
            self.searching(origin, trace).same_shape(self),
            forall|e: EdgeRef|
                self.has_edge(e) ==> (#[trigger] self.searching(origin, trace).edge_open(e) <==> (
                self.edge_open(e) && !Self::names_edge(trace, e.index as int))),
            forall|n: NodeRef|
                self.has_node(n) ==> (#[trigger] self.searching(origin, trace).node_open(n) <==> (
                self.node_open(n) && n != origin && !self.names_target(trace, n.index as int))),
            forall|i: int|
                0 <= i < self.edges.len() ==> (#[trigger] self.searching(
                    origin,
                    trace,
                ).edges[i]).lock == if Self::names_edge(trace, i) {
                    CLOSED
                } else {
                    self.edges[i].lock
                },
            forall|i: int|
                0 <= i < self.nodes.len() ==> (#[trigger] self.searching(
                    origin,
                    trace,
                ).nodes[i]).lock == if i == origin.index || self.names_target(trace, i) {
                    CLOSED
                } else {
                    self.nodes[i].lock
                },
    {
        let gs = self.set_node_lock(origin, CLOSED);
        let cur = self.searching(origin, trace);
        assert forall|i: int| gs.names_target(trace, i) <==> self.names_target(trace, i) by {
            if gs.names_target(trace, i) {
                let k = choose|k: int|
                    0 <= k < trace.len() && gs.target(#[trigger] trace[k]).index == i;
                assert(self.target(trace[k]).index == i);
            }
            if self.names_target(trace, i) {
                let k = choose|k: int|
                    0 <= k < trace.len() && self.target(#[trigger] trace[k]).index == i;
                assert(gs.target(trace[k]).index == i);
            }
        }
    }

    /// One expansion keeps the tree a tree. Where it does not reach `goal`,
    /// it exhausts the node it expands, and none of its edges enters `goal`.
    pub proof fn lemma_expand(
        self,
        origin: NodeRef,
        goal: NodeRef,
        trace: Seq<EdgeRef>,
        parents: Seq<int>,
        head: int,
    )
        requires
            self.wf(),
            self.has_node(origin),
            self.is_tree(origin, trace, parents),
            -1 <= head < trace.len(),
            forall|j: int| 0 <= j < trace.len() ==> #[trigger] parents[j] < head,
        ensures
            ({
                let cur = self.searching(origin, trace);
                let adj = self.outbound(self.node_at(origin, trace, head));
                let claimed = cur.expansion(adj, goal);
                let grown = trace + claimed;
                let links = Self::grown_parents(parents, claimed, head);
                &&& cur.outbound(cur.node_at(origin, trace, head)) == adj
                &&& cur.has_node(cur.node_at(origin, trace, head))
                &&& cur.node_at(origin, trace, head) == self.node_at(origin, trace, head)
                &&& cur.claim_all(claimed) == self.searching(origin, grown)
                &&& self.is_tree(origin, grown, links)
                &&& forall|j: int| 0 <= j < grown.len() ==> #[trigger] links[j] <= head
                &&& cur.hits(adj, goal) ==> claimed.len() > 0 && self.target(claimed.last())
                    == goal
                &&& !cur.hits(adj, goal) ==> self.exhausted(origin, grown, links, head)
                &&& !cur.hits(adj, goal) ==> forall|m: int|
                    0 <= m < claimed.len() ==> self.target(#[trigger] claimed[m]) != goal
            }),
    {
        let gs = self.set_node_lock(origin, CLOSED);
        let cur = self.searching(origin, trace);
        let node = self.node_at(origin, trace, head);
        let adj = self.outbound(node);
        let claimed = cur.expansion(adj, goal);
        let grown = trace + claimed;
        let links = Self::grown_parents(parents, claimed, head);
        assert(self.has_edges(trace)) by {
            assert forall|k: int| 0 <= k < trace.len() implies self.has_edge(
                #[trigger] trace[k],
            ) by {
                assert(self.passable(origin, trace[k]));
            }
        }
        self.lemma_searching(origin, trace);
        if head >= 0 {
            assert(self.passable(origin, trace[head]));
        }
        assert(self.has_node(node));
        assert(cur.node_at(origin, trace, head) == node);
        assert(cur.nodes[node.index as int].outbound == self.nodes[node.index as int].outbound);
        assert(cur.outbound(node) == adj);
        cur.lemma_expansion(adj, goal);
        assert forall|m: int| 0 <= m < claimed.len() implies {
            &&& self.has_edge(#[trigger] claimed[m])
            &&& self.source(claimed[m]) == node
            &&& self.passable(origin, claimed[m])
            &&& !self.names_target(trace, self.target(claimed[m]).index as int)
        } by {
            let x = claimed[m];
            assert(adj.contains(x));
            let k = choose|k: int| 0 <= k < adj.len() && adj[k] == x;
            assert(self.has_edge(self.outbound(node)[k]));
            assert(self.has_node(self.target(x)));
            assert(cur.edge_open(x));
            assert(cur.node_open(self.target(x)));
            assert(cur.target(x) == self.target(x));
        }
        assert(self.has_edges(claimed));
        assert(gs.has_edges(claimed));
        gs.lemma_claim_all_twice(trace, claimed);
        assert(self.is_tree(origin, grown, links)) by {
            assert forall|k: int| 0 <= k < grown.len() implies self.passable(
                origin,
                #[trigger] grown[k],
            ) by {
                if k < trace.len() {
                    assert(grown[k] == trace[k]);
                } else {
                    assert(grown[k] == claimed[k - trace.len()]);
                }
            }
            assert forall|i: int, j: int| 0 <= i < j < grown.len() implies self.target(
                #[trigger] grown[i],
            ) != self.target(#[trigger] grown[j]) by {
                if j < trace.len() {
                    assert(grown[i] == trace[i] && grown[j] == trace[j]);
                } else if i < trace.len() {
                    assert(grown[i] == trace[i]);
                    assert(grown[j] == claimed[j - trace.len()]);
                } else {
                    assert(grown[i] == claimed[i - trace.len()]);
                    assert(grown[j] == claimed[j - trace.len()]);
                    assert(cur.target(claimed[i - trace.len()]) != cur.target(
                        claimed[j - trace.len()],
                    ));
                }
            }
            assert forall|j: int| 0 <= j < grown.len() implies -1 <= #[trigger] links[j] < j
                && self.source(grown[j]) == self.node_at(origin, grown, links[j]) by {
                if j < trace.len() {
                    assert(grown[j] == trace[j]);
                    assert(links[j] == parents[j]);
                    if parents[j] >= 0 {
                        assert(grown[parents[j]] == trace[parents[j]]);
                    }
                } else {
                    assert(grown[j] == claimed[j - trace.len()]);
                    assert(links[j] == head);
                    if head >= 0 {
                        assert(grown[head] == trace[head]);
                    }
                }
            }
            assert forall|i: int, j: int| 0 <= i <= j < grown.len() implies #[trigger] links[i]
                <= #[trigger] links[j] by {
                if j < trace.len() {
                    assert(links[i] == parents[i] && links[j] == parents[j]);
                } else if i < trace.len() {
                    assert(links[i] == parents[i]);
                }
            }
        }
        assert forall|j: int| 0 <= j < grown.len() implies #[trigger] links[j] <= head by {
            if j < trace.len() {
                assert(links[j] == parents[j]);
            }
        }
        if !cur.hits(adj, goal) {
            assert(self.node_at(origin, grown, head) == node) by {
                if head >= 0 {
                    assert(grown[head] == trace[head]);
                }
            }
            assert forall|k: int|
                0 <= k < adj.len() && self.passable(origin, #[trigger] adj[k]) implies self.reached(
                grown,
                links,
                self.target(adj[k]),
                head,
            ) by {
                let e = adj[k];
                let t = self.target(e);
                assert(self.has_edge(e) && self.has_node(t));
                assert(cur.target(e) == t);
                if cur.claimable(e) {
                    assert(cur.names_target(claimed, t.index as int));
                    let m = choose|m: int|
                        0 <= m < claimed.len() && cur.target(#[trigger] claimed[m]).index
                            == t.index;
                    assert(grown[trace.len() + m] == claimed[m]);
                    assert(self.target(grown[trace.len() + m]) == t);
                    assert(links[trace.len() + m] == head);
                } else if !cur.edge_open(e) {
                    assert(Self::names_edge(trace, e.index as int));
                    let j = choose|j: int|
                        0 <= j < trace.len() && (#[trigger] trace[j]).index == e.index;
                    assert(grown[j] == trace[j]);
                    assert(links[j] == parents[j]);
                    assert(self.target(grown[j]) == t);
                } else {
                    assert(!cur.node_open(t));
                    assert(self.names_target(trace, t.index as int));
                    let j = choose|j: int|
                        0 <= j < trace.len() && self.target(#[trigger] trace[j]).index
                            == t.index;
                    assert(grown[j] == trace[j]);
                    assert(links[j] == parents[j]);
                    assert(self.target(grown[j]) == t);
                }
            }
            assert forall|m: int| 0 <= m < claimed.len() implies self.target(
                #[trigger] claimed[m],
            ) != goal by {
                assert(cur.target(claimed[m]) != goal);
            }
        } else {
            assert(self.has_edge(claimed[claimed.len() - 1]));
        }
    }

    /// A node that is exhausted stays so when the trace grows.
    pub proof fn lemma_exhausted_grows(
        self,
        origin: NodeRef,
        trace: Seq<EdgeRef>,
        parents: Seq<int>,
        more: Seq<EdgeRef>,
        links: Seq<int>,
        h: int,
    )
        requires
            parents.len() == trace.len(),
            links.len() == more.len(),
            -1 <= h < trace.len(),
            self.exhausted(origin, trace, parents, h),
        ensures
            self.exhausted(origin, trace + more, parents + links, h),
    {
        let grown = trace + more;
        let all = parents + links;
        let node = self.node_at(origin, trace, h);
        assert(self.node_at(origin, grown, h) == node) by {
            if h >= 0 {
                assert(grown[h] == trace[h]);
            }
        }
        assert forall|k: int|
            0 <= k < self.outbound(node).len() && self.passable(
                origin,
                #[trigger] self.outbound(node)[k],
            ) implies self.reached(grown, all, self.target(self.outbound(node)[k]), h) by {
            let t = self.target(self.outbound(node)[k]);
            assert(self.reached(trace, parents, t, h));
            let j = choose|j: int|
                0 <= j < trace.len() && self.target(#[trigger] trace[j]) == t && parents[j] <= h;
            assert(grown[j] == trace[j]);
            assert(all[j] == parents[j]);
        }
    }

    /// A tree has no more edges than the graph has nodes.
    pub proof fn lemma_tree_fits(self, origin: NodeRef, trace: Seq<EdgeRef>, parents: Seq<int>)
        requires
            self.endpoints_valid(),
            self.is_tree(origin, trace, parents),
        ensures
            trace.len() <= self.nodes.len(),
    {
        let entered = Seq::new(trace.len(), |k: int| self.target(trace[k]).index as int);
        assert(entered.no_duplicates()) by {
            assert forall|i: int, j: int|
                0 <= i < entered.len() && 0 <= j < entered.len() && i != j implies entered[i]
                != entered[j] by {
                if i < j {
                    assert(self.target(trace[i]) != self.target(trace[j]));
                } else {
                    assert(self.target(trace[j]) != self.target(trace[i]));
                }
            }
        }
        entered.unique_seq_to_set();
        let all = vstd::set_lib::set_int_range(0, self.nodes.len() as int);
        vstd::set_lib::lemma_int_range(0, self.nodes.len() as int);
        assert(entered.to_set().subset_of(all)) by {
            assert forall|x: int| entered.to_set().contains(x) implies all.contains(x) by {
                let k = choose|k: int| 0 <= k < entered.len() && entered[k] == x;
                assert(self.passable(origin, trace[k]));
                assert(self.has_node(self.target(trace[k])));
            }
        }
        vstd::set_lib::lemma_len_subset(entered.to_set(), all);
    }

    /// Opening a node of a graph in which everything is open changes
    /// nothing.
    pub proof fn lemma_all_open(self, n: NodeRef)
        requires
            self.has_node(n),
            self.all_open(),
        ensures
            self.set_node_lock(n, OPEN) == self,
    {
        assert(self.node_open(n));
        assert(self.set_node_lock(n, OPEN).nodes =~= self.nodes);
    }

    /// Opening what a search has claimed, and its origin, leaves every flag
    /// but that of the origin as it was before the search.
    pub proof fn lemma_search_restores(self, origin: NodeRef, trace: Seq<EdgeRef>, parents: Seq<int>)
        requires
            self.endpoints_valid(),
            self.has_node(origin),
            self.is_tree(origin, trace, parents),
        ensures
            self.has_edges(trace),
            self.searching(origin, trace).endpoints_valid(),
            self.searching(origin, trace).has_edges(trace),
            self.searching(origin, trace).set_all(trace, OPEN).set_node_lock(origin, OPEN)
                == self.set_node_lock(origin, OPEN),
    {
        let cur = self.searching(origin, trace);
        let opened = cur.set_edges(trace, OPEN);
        let left = cur.set_all(trace, OPEN).set_node_lock(origin, OPEN);
        let right = self.set_node_lock(origin, OPEN);
        assert(self.has_edges(trace)) by {
            assert forall|k: int| 0 <= k < trace.len() implies self.has_edge(
                #[trigger] trace[k],
            ) by {
                assert(self.passable(origin, trace[k]));
            }
        }
        self.lemma_searching(origin, trace);
        assert forall|e: EdgeRef| #[trigger] cur.has_edge(e) implies cur.source(e)
            == self.source(e) && cur.target(e) == self.target(e) by {
            assert(cur.edges[e.index as int].source == self.edges[e.index as int].source);
        }
        assert(cur.endpoints_valid()) by {
            assert forall|e: EdgeRef| #[trigger] cur.has_edge(e) implies cur.has_node(
                cur.source(e),
            ) && cur.has_node(cur.target(e)) by {
                assert(self.has_edge(e));
            }
        }
        cur.lemma_set_edges_touched(trace, OPEN, trace);
        assert forall|i: int| 0 <= i < self.nodes.len() implies #[trigger] left.nodes[i]
            == right.nodes[i] by {
            if i != origin.index {
                if cur.names_node(trace, i) {
                    let k = choose|k: int|
                        0 <= k < trace.len() && (cur.source(#[trigger] trace[k]).index == i
                            || cur.target(trace[k]).index == i);
                    assert(self.passable(origin, trace[k]));
                    if self.target(trace[k]).index != i {
                        let p = parents[k];
                        assert(-1 <= p < k);
                        assert(self.source(trace[k]) == self.node_at(origin, trace, p));
                        assert(self.passable(origin, trace[p]));
                        assert(self.target(trace[p]).index == i);
                    }
                    assert(self.nodes[i].lock == OPEN);
                } else {
                    if self.names_target(trace, i) {
                        let k = choose|k: int|
                            0 <= k < trace.len() && self.target(#[trigger] trace[k]).index == i;
                        assert(cur.target(trace[k]).index == i);
                    }
                    assert(cur.nodes[i].lock == self.nodes[i].lock);
                }
            }
        }
        assert forall|i: int| 0 <= i < self.edges.len() implies #[trigger] left.edges[i]
            == right.edges[i] by {
            if Self::names_edge(trace, i) {
                let k = choose|k: int| 0 <= k < trace.len() && (#[trigger] trace[k]).index == i;
                assert(self.passable(origin, trace[k]));
            } else {
                assert(cur.edges[i].lock == self.edges[i].lock);
            }
        }
        assert(left.nodes =~= right.nodes);
        assert(left.edges =~= right.edges);
    }
}

} // verus!
