//! A node: a key, a payload, two adjacency lists and a traversal flag.

use std::collections::VecDeque;
use std::fmt::Display;
use std::hash::{Hash, Hasher};
use vstd::prelude::*;
use vstd::std_specs::cmp::{PartialEqSpec, PartialEqSpecImpl};
use crate::edge::Edge;
use crate::edge_list::EdgeList;
use crate::graph::Graph;
use crate::handle::{EdgeRef, NodeRef, CLOSED, OPEN};
use crate::model::{GraphState, NodeState};
use crate::render::{node_text, render_node, shows, texts};

verus! {

/// A node of a graph.
///
/// The key never changes, and two nodes are equal where their keys are.
/// `outbound` lists the edges that leave the node and `inbound` those that
/// enter it.
#[derive(Debug)]
pub struct Node<K, N> {
    pub(crate) key: K,
    pub(crate) data: N,
    pub outbound: EdgeList,
    pub inbound: EdgeList,
    pub(crate) lock: bool,
}

impl<K, N> View for Node<K, N> {
    type V = NodeState<K, N>;

    open(crate) spec fn view(&self) -> NodeState<K, N> {
        NodeState {
            key: self.key,
            data: self.data,
            lock: self.lock,
            outbound: self.outbound@,
            inbound: self.inbound@,
        }
    }
}

impl<K: Clone, N: Clone> Clone for Node<K, N> {
    /// A node of its own with a copy of the key and of the payload, the same
    /// flag and the same edge handles.
    fn clone(&self) -> (copy: Node<K, N>)
        ensures
            cloned(self@.key, copy@.key),
            cloned(self@.data, copy@.data),
            copy@.lock == self@.lock,
            copy@.outbound == self@.outbound,
            copy@.inbound == self@.inbound,
    {
        Node {
            key: self.key.clone(),
            data: self.data.clone(),
            outbound: self.outbound.clone(),
            inbound: self.inbound.clone(),
            lock: self.lock,
        }
    }
}

impl<K: PartialEq, N> PartialEq for Node<K, N> {
    /// Two nodes are equal where their keys are, whatever else they hold.
    fn eq(&self, other: &Node<K, N>) -> (equal: bool) {
        self.key == other.key
    }
}

impl<K: PartialEq, N> PartialEqSpecImpl for Node<K, N> {
    open spec fn obeys_eq_spec() -> bool {
        K::obeys_eq_spec()
    }

    open spec fn eq_spec(&self, other: &Node<K, N>) -> bool {
        self@.key.eq_spec(&other@.key)
    }
}

impl<K: Eq, N> Eq for Node<K, N> {

}

/// Feeds `key` into `state`: `Hash::hash` of the standard library, of which
/// nothing is claimed.
#[verifier::external_body]
fn hash_key<K: Hash, H: Hasher>(key: &K, state: &mut H) {
    key.hash(state)
}

impl<K: Hash, N> Hash for Node<K, N> {
    /// A node hashes as its key does, whatever else it holds.
    fn hash<H: Hasher>(&self, state: &mut H) {
        hash_key(&self.key, state)
    }
}

impl<K, N> Node<K, N> {
    /// An open node with the given key and payload and no edges.
    pub fn new(key: K, data: N) -> (node: Node<K, N>)
        ensures
            node@ == (NodeState {
                key,
                data,
                lock: OPEN,
                outbound: Seq::<EdgeRef>::empty(),
                inbound: Seq::<EdgeRef>::empty(),
            }),
    {
        Node { key, data, outbound: EdgeList::new(), inbound: EdgeList::new(), lock: OPEN }
    }

    /// A copy of the payload.
    pub fn load(&self) -> (data: N) where N: Clone
        ensures
            cloned(self@.data, data),
    {
        self.data.clone()
    }

    /// Replaces the payload.
    pub fn store(&mut self, data: N)
        ensures
            final(self)@ == (NodeState { data, ..old(self)@ }),
    {
        self.data = data;
    }

    /// The key.
    pub fn key(&self) -> (key: &K)
        ensures
            *key == self@.key,
    {
        &self.key
    }

    /// The traversal flag: `OPEN` or `CLOSED`.
    pub fn lock(&self) -> (lock: bool)
        ensures
            lock == self@.lock,
    {
        self.lock
    }

    /// Sets the traversal flag to `CLOSED`.
    pub fn close(&mut self)
        ensures
            final(self)@ == (NodeState { lock: CLOSED, ..old(self)@ }),
    {
        self.lock = CLOSED;
    }

    /// Sets the traversal flag to `OPEN`.
    pub fn open(&mut self)
        ensures
            final(self)@ == (NodeState { lock: OPEN, ..old(self)@ }),
    {
        self.lock = OPEN;
    }

    /// The position of the first outbound edge that enters `target`.
    pub fn find_outbound<E>(&self, graph: &Graph<K, N, E>, target: NodeRef) -> (index: Option<
        usize,
    >)
        requires
            graph@.has_edges(self@.outbound),
        ensures
            match index {
                Some(i) => graph@.first_with_target(self@.outbound, target, i as int),
                None => !graph@.some_with_target(self@.outbound, target),
            },
    {
        let mut i: usize = 0;
        while i < self.outbound.list.len()
            invariant
                i <= self@.outbound.len(),
                graph@.has_edges(self@.outbound),
                forall|j: int| 0 <= j < i ==> graph@.target(#[trigger] self@.outbound[j]) != target,
            decreases self@.outbound.len() - i,
        {
            if graph.edge(self.outbound.list[i]).target() == target {
                return Some(i);
            }
            i += 1;
        }
        None
    }

    /// The position of the first inbound edge that leaves `source`.
    pub fn find_inbound<E>(&self, graph: &Graph<K, N, E>, source: NodeRef) -> (index: Option<
        usize,
    >)
        requires
            graph@.has_edges(self@.inbound),
        ensures
            match index {
                Some(i) => graph@.first_with_source(self@.inbound, source, i as int),
                None => !graph@.some_with_source(self@.inbound, source),
            },
    {
        let mut i: usize = 0;
        while i < self.inbound.list.len()
            invariant
                i <= self@.inbound.len(),
                graph@.has_edges(self@.inbound),
                forall|j: int| 0 <= j < i ==> graph@.source(#[trigger] self@.inbound[j]) != source,
            decreases self@.inbound.len() - i,
        {
            if graph.edge(self.inbound.list[i]).source() == source {
                return Some(i);
            }
            i += 1;
        }
        None
    }

    /// Expands `node` in a search for `target`: goes through the outbound
    /// edges of `node` and claims each one that is open and enters an open
    /// node, by closing the edge and that node, putting the node at the back
    /// of `queue` and the edge at the end of `result`. Stops, and returns
    /// `true`, as soon as a claimed edge enters `target`; returns `false`
    /// where no claimed edge does.
    pub fn traverse_consume_node<E>(
        graph: &mut Graph<K, N, E>,
        node: NodeRef,
        target: NodeRef,
        queue: &mut VecDeque<NodeRef>,
        result: &mut EdgeList,
    ) -> (found: bool)
        requires
            old(graph)@.endpoints_valid(),
            old(graph)@.lists_valid(),
            old(graph)@.has_node(node),
        ensures
            final(graph)@.same_shape(old(graph)@),
            old(graph)@.wf() ==> final(graph)@.wf(),
            found == old(graph)@.hits(old(graph)@.outbound(node), target),
            final(graph)@ == old(graph)@.claim_all(
                old(graph)@.expansion(old(graph)@.outbound(node), target),
            ),
            final(queue)@ == old(queue)@ + old(graph)@.targets(
                old(graph)@.expansion(old(graph)@.outbound(node), target),
            ),
            final(result)@ == old(result)@ + old(graph)@.expansion(
                old(graph)@.outbound(node),
                target,
            ),
    {
        let ghost g = graph@;
        let ghost adj = g.outbound(node);
        proof {
            g.lemma_claim_all_shape(g.expansion(adj, target));
            if g.wf() {
                g.claim_all(g.expansion(adj, target)).lemma_same_shape_wf(g);
            }
            assert(g.claim_all(Seq::<EdgeRef>::empty()).nodes =~= g.nodes);
            assert(g.claim_all(Seq::<EdgeRef>::empty()).edges =~= g.edges);
            assert(g.targets(Seq::<EdgeRef>::empty()) =~= Seq::<NodeRef>::empty());
            assert(g.has_edges(adj));
            assert(queue@ + Seq::<NodeRef>::empty() =~= queue@);
            assert(result@ + Seq::<EdgeRef>::empty() =~= result@);
        }
        let mut i: usize = 0;
        while i < graph.nodes[node.index].outbound.list.len()
            invariant
                g == old(graph)@,
                adj == g.outbound(node),
                g.endpoints_valid(),
                g.has_edges(adj),
                g.has_node(node),
                i <= adj.len(),
                graph@ == g.claim_all(g.claims(adj, i as nat)),
                graph@.same_shape(g),
                queue@ == old(queue)@ + g.targets(g.claims(adj, i as nat)),
                result@ == old(result)@ + g.claims(adj, i as nat),
                forall|j: int| 0 <= j < i ==> !#[trigger] g.hit_at(adj, target, j),
                g.wf() ==> g.claim_all(g.expansion(adj, target)).wf(),
            decreases adj.len() - i,
        {
            assert(graph@.nodes[node.index as int].outbound == adj);
            let e = graph.nodes[node.index].outbound.list[i];
            proof {
                g.lemma_scan_next(adj, i as int);
                g.lemma_claim_all_shape(g.claims(adj, (i + 1) as nat));
                assert(g.has_edge(e));
                assert(g.has_node(g.target(e)));
            }
            let ghost before = g.claims(adj, i as nat);
            let ghost now = g.claims(adj, (i + 1) as nat);
            let entered = graph.edge(e).target();
            if graph.edge(e).lock() == OPEN && graph.node(entered).lock() == OPEN {
                graph.close_edge(e);
                graph.close_node(entered);
                queue.push_back(entered);
                result.add(e);
                proof {
                    assert(now == before.push(e));
                    assert(g.targets(now) =~= g.targets(before).push(entered));
                    assert(queue@ =~= old(queue)@ + g.targets(now));
                    assert(result@ =~= old(result)@ + now);
                }
                if entered == target {
                    proof {
                        g.lemma_hit_is_last(adj, target, i as int);
                    }
                    return true;
                }
            }
            i += 1;
        }
        proof {
            assert(graph@.nodes[node.index as int].outbound == adj);
            assert(!g.hits(adj, target));
        }
        false
    }

    /// Searches breadth first from `source` for `target` and leaves closed
    /// what the search claimed: `source`, every edge of the trace and every
    /// node that one of them enters. Returns whether `target` was reached,
    /// and the trace.
    fn explore<E>(graph: &mut Graph<K, N, E>, source: NodeRef, target: NodeRef) -> (outcome: (
        bool,
        EdgeList,
    ))
        requires
            old(graph)@.wf(),
            old(graph)@.has_node(source),
        ensures
            (outcome.1@, outcome.0) == old(graph)@.search(source, target),
            final(graph)@ == old(graph)@.searching(source, outcome.1@),
    {
        let ghost g = graph@;
        let ghost none = Seq::<EdgeRef>::empty();
        let mut queue: VecDeque<NodeRef> = VecDeque::new();
        let mut result = EdgeList::new();
        graph.close_node(source);
        proof {
            let gs = g.set_node_lock(source, CLOSED);
            assert(gs.claim_all(none).nodes =~= gs.nodes);
            assert(gs.claim_all(none).edges =~= gs.edges);
            assert(graph@ == g.searching(source, none));
            assert(g.is_tree(source, none, Seq::<int>::empty()));
            g.lemma_expand(source, target, none, Seq::<int>::empty(), -1);
            graph@.lemma_same_shape_wf(g);
        }
        let ghost first = graph@.expansion(g.outbound(source), target);
        let mut found = Self::traverse_consume_node(graph, source, target, &mut queue, &mut result);
        let ghost mut parents = GraphState::<K, N, E>::grown_parents(Seq::<int>::empty(), first, -1);
        let ghost mut head: int = 0;
        proof {
            assert(none + first =~= first);
            assert(result@ =~= first);
            assert(queue@ =~= g.targets(result@).subrange(0, result@.len() as int)) by {
                let gs = g.searching(source, none);
                assert forall|k: int| 0 <= k < first.len() implies gs.target(first[k])
                    == g.target(first[k]) by {
                    assert(g.passable(source, first[k]));
                }
                assert(gs.targets(first) =~= g.targets(first));
            }
        }
        let mut pending = !found;
        while pending
            invariant
                g == old(graph)@,
                g.wf(),
                g.has_node(source),
                g.is_tree(source, result@, parents),
                graph@ == g.searching(source, result@),
                0 <= head <= result@.len(),
                queue@ == g.targets(result@).subrange(head, result@.len() as int),
                forall|j: int| 0 <= j < result@.len() ==> #[trigger] parents[j] < head,
                pending ==> !found,
                !pending ==> g.search(source, target) == (result@, found),
                pending ==> g.search(source, target) == graph@.run(
                    source,
                    target,
                    result@,
                    head,
                ),
            decreases g.nodes.len() - head + (if pending { 1int } else { 0int }),
        {
            let ghost trace = result@;
            let ghost cur = graph@;
            proof {
                g.lemma_tree_fits(source, trace, parents);
                cur.lemma_same_shape_wf(g);
            }
            match queue.pop_front() {
                Some(node) => {
                    proof {
                        assert(node == g.targets(trace)[head]);
                        g.lemma_expand(source, target, trace, parents, head);
                    }
                    let ghost claimed = cur.expansion(g.outbound(node), target);
                    found = Self::traverse_consume_node(graph, node, target, &mut queue, &mut result);
                    pending = !found;
                    proof {
                        assert forall|k: int| 0 <= k < claimed.len() implies cur.target(
                            claimed[k],
                        ) == g.target(claimed[k]) by {
                            assert(g.passable(source, result@[trace.len() + k]));
                        }
                        assert(cur.targets(claimed) =~= g.targets(claimed));
                        assert(queue@ =~= g.targets(result@).subrange(
                            head + 1,
                            result@.len() as int,
                        ));
                        parents = GraphState::<K, N, E>::grown_parents(parents, claimed, head);
                        head = head + 1;
                    }
                },
                None => {
                    pending = false;
                },
            }
        }
        (found, result)
    }

    /// Searches breadth first from `source` for `target`: closes `source`,
    /// expands it, and then expands the nodes that the search has entered, in
    /// the order in which it entered them, until an expansion reaches
    /// `target` or no node is left.
    ///
    /// Returns the trace of the search, that is every edge the search
    /// claimed, in the order in which it claimed them, where the search
    /// reached `target`, and `None` where it did not. The search reaches
    /// `target` exactly when a route leads from `source` to it: one or more
    /// connected open edges, each from the node the one before it enters,
    /// none of which enters a closed node or `source`. Flags that are closed
    /// when the search starts are obstacles.
    ///
    /// No route leads to `source` itself, so a search for `source` finds
    /// nothing.
    ///
    /// Before it returns, the search opens again what it claimed; `source`
    /// is open afterwards, and every other flag is as it was.
    pub fn traverse_breadth<E>(graph: &mut Graph<K, N, E>, source: NodeRef, target: NodeRef) -> (trace:
        Option<EdgeList>)
        requires
            old(graph)@.wf(),
            old(graph)@.has_node(source),
        ensures
            match trace {
                Some(list) => old(graph)@.traverse_breadth(source, target) == Some(list@),
                None => old(graph)@.traverse_breadth(source, target) is None,
            },
            trace is Some <==> old(graph)@.reachable(source, target),
            source == target ==> trace is None,
            final(graph)@ == old(graph)@.set_node_lock(source, OPEN),
            final(graph)@.wf(),
            old(graph)@.all_open() ==> final(graph)@.all_open(),
    {
        proof {
            graph@.lemma_search_outcome(source, target);
            if source == target {
                graph@.law_origin_is_not_reached(source);
            }
        }
        let (found, result) = Self::explore(graph, source, target);
        result.open_all(graph);
        graph.open_node(source);
        if found {
            Some(result)
        } else {
            None
        }
    }

    /// Searches breadth first from `source` for `target`, as
    /// [`traverse_breadth`](Node::traverse_breadth) does, and returns the
    /// path by which the search reached `target`: the chain of edges that
    /// leads back from `target` to `source`, last edge first. Returns `None`
    /// where the search did not reach `target`.
    ///
    /// Read backwards, the chain is a route from `source` to `target`, and no
    /// route from `source` to `target` has fewer edges.
    ///
    /// Before it returns, the search opens again what it claimed; `source`
    /// is open afterwards, and every other flag is as it was.
    pub fn shortest_path<E>(graph: &mut Graph<K, N, E>, source: NodeRef, target: NodeRef) -> (path:
        Option<EdgeList>)
        requires
            old(graph)@.wf(),
            old(graph)@.has_node(source),
        ensures
            match path {
                Some(chain) => old(graph)@.shortest_path(source, target) == Some(chain@),
                None => old(graph)@.shortest_path(source, target) is None,
            },
            path is Some <==> old(graph)@.reachable(source, target),
            source == target ==> path is None,
            path is Some ==> old(graph)@.is_route(source, path->0@.reverse(), target),
            path is Some ==> forall|route: Seq<EdgeRef>| #[trigger]
                old(graph)@.is_route(source, route, target) ==> path->0@.len() <= route.len(),
            final(graph)@ == old(graph)@.set_node_lock(source, OPEN),
            final(graph)@.wf(),
            old(graph)@.all_open() ==> final(graph)@.all_open(),
    {
        proof {
            graph@.lemma_search_outcome(source, target);
            if source == target {
                graph@.law_origin_is_not_reached(source);
            }
        }
        let (found, result) = Self::explore(graph, source, target);
        let path = if found {
            result.backtrack(graph)
        } else {
            result.open_all(graph);
            None
        };
        graph.open_node(source);
        path
    }
}

impl<K: Display, N: Display> Node<K, N> {
    /// Describes each edge of `list`, in the order of the list.
    fn describe<E: Display>(graph: &Graph<K, N, E>, list: &EdgeList) -> (lines: Vec<String>)
        requires
            graph@.endpoints_valid(),
            graph@.has_edges(list@),
        ensures
            graph@.describes_edges(list@, texts(lines@)),
    {
        let mut lines: Vec<String> = Vec::new();
        let mut i: usize = 0;
        while i < list.list.len()
            invariant
                i <= list@.len(),
                lines@.len() == i,
                graph@.endpoints_valid(),
                graph@.has_edges(list@),
                forall|k: int|
                    0 <= k < i ==> graph@.describes_edge(
                        graph@.edge(list@[k]),
                        (#[trigger] lines@[k])@,
                    ),
            decreases list@.len() - i,
        {
            let e = list.list[i];
            assert(graph@.has_edge(e));
            let line = graph.edge(e).to_string(graph);
            lines.push(line);
            i += 1;
        }
        assert forall|k: int| 0 <= k < list@.len() implies graph@.describes_edge(
            graph@.edge(list@[k]),
            #[trigger] texts(lines@)[k],
        ) by {
            assert(texts(lines@)[k] == lines@[k]@);
        }
        lines
    }

    /// Describes the node: its key, its traversal state and its payload,
    /// each in double quotes, then between braces its outbound edges and
    /// its inbound edges, one to a line behind a tab, each group behind an
    /// empty line.
    pub fn to_string<E: Display>(&self, graph: &Graph<K, N, E>) -> (text: String)
        requires
            graph@.endpoints_valid(),
            graph@.has_edges(self@.outbound),
            graph@.has_edges(self@.inbound),
        ensures
            graph@.describes_node(self@, text@),
    {
        let outbound = Self::describe(graph, &self.outbound);
        let inbound = Self::describe(graph, &self.inbound);
        let key = self.key.to_string();
        let data = self.data.to_string();
        let text = render_node(key.as_str(), self.lock, data.as_str(), &outbound, &inbound);
        proof {
            assert(shows(self@.key, key@));
            assert(shows(self@.data, data@));
            assert(text@ == node_text(
                key@,
                self@.lock,
                data@,
                texts(outbound@),
                texts(inbound@),
            ));
        }
        text
    }
}

/// Joins `source` to `target` by a new open edge that carries `data`, unless
/// an edge from `source` to `target` exists already. Returns whether the edge
/// was made.
///
/// The new edge is appended to the outbound list of `source` and to the
/// inbound list of `target`. An edge from `target` to `source` is another
/// pair and does not stand in the way; `source` and `target` may be one node.
pub fn connect<K, N, E>(graph: &mut Graph<K, N, E>, source: NodeRef, target: NodeRef, data: E) -> (connected:
    bool)
    requires
        old(graph)@.wf(),
        old(graph)@.has_node(source),
        old(graph)@.has_node(target),
    ensures
        connected == !old(graph)@.adjacent(source, target),
        connected ==> final(graph)@ == old(graph)@.connect(source, target, data),
        !connected ==> final(graph)@ == old(graph)@,
        final(graph)@.wf(),
        final(graph)@.adjacent(source, target),
        connected ==> final(graph)@.outbound(source).len() == old(graph)@.outbound(source).len()
            + 1,
        connected ==> final(graph)@.inbound(target).len() == old(graph)@.inbound(target).len()
            + 1,
        old(graph)@.keys_unique() ==> final(graph)@.keys_unique(),
{
    match graph.node(source).find_outbound(graph, target) {
        Some(_) => false,
        None => {
            let e = EdgeRef { index: graph.edges.len() };
            graph.edges.push(Edge::new(source, target, data));
            graph.nodes[source.index].outbound.add(e);
            graph.nodes[target.index].inbound.add(e);
            proof {
                assert(graph.edges@.len() == graph.edges.len());
                assert(graph@.edges =~= old(graph)@.connect(source, target, data).edges);
                assert(graph@.nodes =~= old(graph)@.connect(source, target, data).nodes);
                old(graph)@.law_connect_once(source, target, data);
                assert forall|n: NodeRef| #[trigger]
                    graph@.has_node(n) implies old(graph)@.has_node(n) && graph@.node(n).key
                    == old(graph)@.node(n).key by {}
            }
            true
        },
    }
}

/// Removes the edge from `source` to `target` from the outbound list of
/// `source` and from the inbound list of `target`. Returns whether there was
/// such an edge; where there was none, nothing changes.
///
/// The edge itself stays in the store, so handles to it that a caller still
/// holds remain valid.
pub fn disconnect<K, N, E>(graph: &mut Graph<K, N, E>, source: NodeRef, target: NodeRef) -> (disconnected:
    bool)
    requires
        old(graph)@.wf(),
        old(graph)@.has_node(source),
        old(graph)@.has_node(target),
    ensures
        disconnected == old(graph)@.adjacent(source, target),
        disconnected ==> final(graph)@ == old(graph)@.disconnect(source, target),
        !disconnected ==> final(graph)@ == old(graph)@,
        final(graph)@.wf(),
        !final(graph)@.adjacent(source, target),
        disconnected ==> final(graph)@.outbound(source).len() + 1 == old(graph)@.outbound(
            source,
        ).len(),
        disconnected ==> final(graph)@.inbound(target).len() + 1 == old(graph)@.inbound(
            target,
        ).len(),
        old(graph)@.keys_unique() ==> final(graph)@.keys_unique(),
{
    match graph.node(source).find_outbound(graph, target) {
        None => false,
        Some(i) => {
            let hooked = graph.node(target).find_inbound(graph, source);
            proof {
                old(graph)@.lemma_disconnect_positions(source, target);
                old(graph)@.lemma_disconnect_wf(source, target);
                old(graph)@.law_disconnect_parts(source, target);
                assert(i == old(graph)@.first_outbound(source, target));
            }
            match hooked {
                Some(j) => {
                    assert(j == old(graph)@.first_inbound(target, source));
                    graph.nodes[target.index].inbound.del_index(j);
                },
                None => {},
            }
            graph.nodes[source.index].outbound.del_index(i);
            proof {
                assert(graph@.edges =~= old(graph)@.disconnect(source, target).edges);
                assert(graph@.nodes =~= old(graph)@.disconnect(source, target).nodes);
                assert forall|n: NodeRef| #[trigger]
                    graph@.has_node(n) implies old(graph)@.has_node(n) && graph@.node(n).key
                    == old(graph)@.node(n).key by {}
            }
            true
        },
    }
}

} // verus!
