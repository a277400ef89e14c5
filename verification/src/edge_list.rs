//! An ordered list of edge handles.

use rayon::iter::IntoParallelRefIterator;
use vstd::prelude::*;
use vstd::std_specs::slice::into_iter_elts;
use crate::graph::Graph;
use crate::handle::{EdgeRef, CLOSED, OPEN};

verus! {

/// An ordered list of edge handles that keeps insertion order and permits
/// duplicates.
#[derive(Debug)]
pub struct EdgeList {
    pub list: Vec<EdgeRef>,
}

/// The parallel iterator that `rayon` gives over the items of a slice.
#[verifier::external_type_specification]
#[verifier::external_body]
#[verifier::reject_recursive_types(T)]
pub struct ExParIter<'data, T>(rayon::slice::Iter<'data, T>);

/// The items over which a parallel iterator fans out, in the order of the
/// slice it was made from.
pub uninterp spec fn par_items(iter: rayon::slice::Iter<'_, EdgeRef>) -> Seq<EdgeRef>;

impl Clone for EdgeList {
    fn clone(&self) -> (copy: EdgeList)
        ensures
            copy@ == self@,
    {
        let copy = EdgeList { list: self.list.clone() };
        assert(copy@ =~= self@);
        copy
    }
}

impl View for EdgeList {
    type V = Seq<EdgeRef>;

    open spec fn view(&self) -> Seq<EdgeRef> {
        self.list@
    }
}

impl EdgeList {
    /// The empty list.
    pub fn new() -> (list: EdgeList)
        ensures
            list@ == Seq::<EdgeRef>::empty(),
    {
        EdgeList { list: Vec::new() }
    }

    /// Appends `edge`, whether or not the list holds it already.
    pub fn add(&mut self, edge: EdgeRef)
        ensures
            final(self)@ == old(self)@.push(edge),
    {
        self.list.push(edge);
    }

    /// An iterator over the handles, in the order of the list.
    pub fn iter(&self) -> (iter: std::slice::Iter<'_, EdgeRef>)
        ensures
            into_iter_elts(iter) == self@,
    {
        let iter = self.list.iter();
        assert(into_iter_elts(iter) =~= self@);
        iter
    }

    /// A parallel iterator over the handles: `rayon`'s `par_iter` on the
    /// list. The iterator borrows the list and fans out over exactly its
    /// items; in which order they are visited is up to `rayon`.
    #[verifier::external_body]
    pub fn par_iter(&self) -> (iter: rayon::slice::Iter<'_, EdgeRef>)
        ensures
            par_items(iter) == self@,
    {
        self.list.par_iter()
    }

    /// The position of the first edge that has the source and the target of
    /// `edge`.
    pub fn find_index<K, N, E>(&self, graph: &Graph<K, N, E>, edge: EdgeRef) -> (index: Option<
        usize,
    >)
        requires
            graph@.has_edges(self@),
            graph@.has_edge(edge),
        ensures
            match index {
                Some(i) => graph@.first_with_ends(self@, edge, i as int),
                None => !graph@.some_with_ends(self@, edge),
            },
    {
        let source = graph.edge(edge).source();
        let target = graph.edge(edge).target();
        let mut i: usize = 0;
        while i < self.list.len()
            invariant
                i <= self@.len(),
                graph@.has_edges(self@),
                source == graph@.source(edge),
                target == graph@.target(edge),
                forall|j: int| 0 <= j < i ==> !graph@.same_ends(#[trigger] self@[j], edge),
            decreases self@.len() - i,
        {
            let e = graph.edge(self.list[i]);
            if e.target() == target && e.source() == source {
                return Some(i);
            }
            i += 1;
        }
        None
    }

    /// Removes the first edge that has the source and the target of `edge`;
    /// does nothing where the list holds none.
    pub fn del<K, N, E>(&mut self, graph: &Graph<K, N, E>, edge: EdgeRef)
        requires
            graph@.has_edges(old(self)@),
            graph@.has_edge(edge),
        ensures
            graph@.some_with_ends(old(self)@, edge) ==> exists|i: int|
                graph@.first_with_ends(old(self)@, edge, i) && final(self)@ == old(self)@.remove(i),
            !graph@.some_with_ends(old(self)@, edge) ==> final(self)@ == old(self)@,
    {
        match self.find_index(graph, edge) {
            Some(i) => {
                self.list.remove(i);
            },
            None => {},
        }
    }

    /// Removes the entry at `index`; does nothing where the list has no such
    /// position.
    pub fn del_index(&mut self, index: usize)
        ensures
            final(self)@ == if index < old(self)@.len() {
                old(self)@.remove(index as int)
            } else {
                old(self)@
            },
    {
        if index < self.list.len() {
            self.list.remove(index);
        }
    }

    /// Sets the flags of the listed edges, where `edges` is set, and of the
    /// nodes at their ends, where `nodes` is set, to `lock`.
    fn mark<K, N, E>(&self, graph: &mut Graph<K, N, E>, edges: bool, nodes: bool, lock: bool)
        requires
            old(graph)@.endpoints_valid(),
            old(graph)@.has_edges(self@),
        ensures
            final(graph)@ == old(graph)@.mark(self@, edges, nodes, lock),
            final(graph)@.same_shape(old(graph)@),
            old(graph)@.wf() ==> final(graph)@.wf(),
    {
        let ghost start = graph@;
        proof {
            start.lemma_mark_shape(self@, edges, nodes, lock);
            if start.wf() {
                start.mark(self@, edges, nodes, lock).lemma_same_shape_wf(start);
            }
            start.lemma_mark_none(edges, nodes, lock);
            assert(self@.take(0) =~= Seq::<EdgeRef>::empty());
        }
        let mut i: usize = 0;
        while i < self.list.len()
            invariant
                i <= self@.len(),
                start.endpoints_valid(),
                start.has_edges(self@),
                graph@ == start.mark(self@.take(i as int), edges, nodes, lock),
            decreases self@.len() - i,
        {
            let e = self.list[i];
            proof {
                start.lemma_mark_next(self@, i as int, edges, nodes, lock);
                assert(start.has_edge(e));
                assert(start.has_node(start.source(e)) && start.has_node(start.target(e)));
            }
            if edges {
                graph.set_edge_lock(e, lock);
            }
            if nodes {
                let target = graph.edge(e).target();
                let source = graph.edge(e).source();
                graph.set_node_lock(target, lock);
                graph.set_node_lock(source, lock);
            }
            i += 1;
        }
        assert(self@.take(self@.len() as int) =~= self@);
    }

    /// Opens every listed edge and the nodes at its ends.
    pub fn open_all<K, N, E>(&self, graph: &mut Graph<K, N, E>) -> (same: &Self)
        requires
            old(graph)@.endpoints_valid(),
            old(graph)@.has_edges(self@),
        ensures
            same == self,
            final(graph)@ == old(graph)@.set_all(self@, OPEN),
            final(graph)@.same_shape(old(graph)@),
            old(graph)@.wf() ==> final(graph)@.wf(),
    {
        self.mark(graph, true, true, OPEN);
        self
    }

    /// Opens the nodes at the ends of every listed edge.
    pub fn open_nodes<K, N, E>(&self, graph: &mut Graph<K, N, E>) -> (same: &Self)
        requires
            old(graph)@.endpoints_valid(),
            old(graph)@.has_edges(self@),
        ensures
            same == self,
            final(graph)@ == old(graph)@.set_nodes(self@, OPEN),
            final(graph)@.same_shape(old(graph)@),
            old(graph)@.wf() ==> final(graph)@.wf(),
    {
        self.mark(graph, false, true, OPEN);
        self
    }

    /// Opens every listed edge.
    pub fn open_edges<K, N, E>(&self, graph: &mut Graph<K, N, E>) -> (same: &Self)
        requires
            old(graph)@.endpoints_valid(),
            old(graph)@.has_edges(self@),
        ensures
            same == self,
            final(graph)@ == old(graph)@.set_edges(self@, OPEN),
            final(graph)@.same_shape(old(graph)@),
            old(graph)@.wf() ==> final(graph)@.wf(),
    {
        self.mark(graph, true, false, OPEN);
        self
    }

    /// Closes every listed edge and the nodes at its ends.
    pub fn close_all<K, N, E>(&self, graph: &mut Graph<K, N, E>) -> (same: &Self)
        requires
            old(graph)@.endpoints_valid(),
            old(graph)@.has_edges(self@),
        ensures
            same == self,
            final(graph)@ == old(graph)@.set_all(self@, CLOSED),
            final(graph)@.same_shape(old(graph)@),
            old(graph)@.wf() ==> final(graph)@.wf(),
    {
        self.mark(graph, true, true, CLOSED);
        self
    }

    /// Closes the nodes at the ends of every listed edge.
    pub fn close_nodes<K, N, E>(&self, graph: &mut Graph<K, N, E>) -> (same: &Self)
        requires
            old(graph)@.endpoints_valid(),
            old(graph)@.has_edges(self@),
        ensures
            same == self,
            final(graph)@ == old(graph)@.set_nodes(self@, CLOSED),
            final(graph)@.same_shape(old(graph)@),
            old(graph)@.wf() ==> final(graph)@.wf(),
    {
        self.mark(graph, false, true, CLOSED);
        self
    }

    /// Closes every listed edge.
    pub fn close_edges<K, N, E>(&self, graph: &mut Graph<K, N, E>) -> (same: &Self)
        requires
            old(graph)@.endpoints_valid(),
            old(graph)@.has_edges(self@),
        ensures
            same == self,
            final(graph)@ == old(graph)@.set_edges(self@, CLOSED),
            final(graph)@.same_shape(old(graph)@),
            old(graph)@.wf() ==> final(graph)@.wf(),
    {
        self.mark(graph, true, false, CLOSED);
        self
    }

    /// Opens every listed edge and the nodes at its ends, and follows the
    /// list back from its last edge: the chain starts with the last edge and
    /// takes, going backwards through the whole list, each edge that enters
    /// the source of the edge taken before it. An empty list has no chain.
    ///
    /// On the trace of a breadth-first search, in which the edge that
    /// discovered a node stands before the edges that leave it, the chain
    /// runs from the node found back to the node the search started at.
    pub fn backtrack<K, N, E>(&self, graph: &mut Graph<K, N, E>) -> (chain: Option<EdgeList>)
        requires
            old(graph)@.endpoints_valid(),
            old(graph)@.has_edges(self@),
        ensures
            final(graph)@ == old(graph)@.set_all(self@, OPEN),
            final(graph)@.same_shape(old(graph)@),
            old(graph)@.wf() ==> final(graph)@.wf(),
            self@.len() == 0 ==> chain is None,
            self@.len() > 0 ==> chain is Some && chain->0@ == old(graph)@.backtrack(self@),
    {
        self.mark(graph, true, true, OPEN);
        if self.list.len() == 0 {
            return None;
        }
        let ghost start = old(graph)@;
        let mut res = EdgeList::new();
        let mut last = self.list[self.list.len() - 1];
        res.add(last);
        let mut n: usize = self.list.len();
        while n > 0
            invariant
                n <= self@.len(),
                self@.len() > 0,
                start.has_edges(self@),
                start.has_edge(last),
                graph@ == start.set_all(self@, OPEN),
                res@ + start.trail(self@, n as nat, last) == start.backtrack(self@),
            decreases n,
        {
            let edge = self.list[n - 1];
            assert(start.has_edge(edge));
            if graph.edge(edge).target() == graph.edge(last).source() {
                proof {
                    assert(res@.push(edge) + start.trail(self@, (n - 1) as nat, edge) =~= res@
                        + start.trail(self@, n as nat, last));
                }
                res.add(edge);
                last = edge;
            }
            n -= 1;
        }
        assert(start.trail(self@, 0, last) =~= Seq::<EdgeRef>::empty());
        assert(res@ + Seq::<EdgeRef>::empty() =~= res@);
        Some(res)
    }
}

} // verus!
