use digraph::{connect, EdgeList, EdgeRef, Graph, NodeRef, CLOSED, OPEN};
use rayon::iter::{IndexedParallelIterator, ParallelIterator};

type G = Graph<u32, u32, u32>;

/// Nodes 0..n, and one edge for each pair, in the order given.
fn graph_of(n: u32, edges: &[(usize, usize)]) -> (G, Vec<NodeRef>, Vec<EdgeRef>) {
    let mut graph = G::new();
    let mut nodes = Vec::new();
    for key in 0..n {
        nodes.push(graph.add_node(key, 0));
    }
    let mut handles = Vec::new();
    for (s, t) in edges {
        assert!(connect(&mut graph, nodes[*s], nodes[*t], 0));
        handles.push(EdgeRef { index: handles.len() });
    }
    (graph, nodes, handles)
}

fn list_of(edges: &[EdgeRef]) -> EdgeList {
    let mut list = EdgeList::new();
    for e in edges {
        list.add(*e);
    }
    list
}

fn node_locks(graph: &G) -> Vec<bool> {
    (0..graph.node_count()).map(|i| graph.node(NodeRef { index: i }).lock()).collect()
}

fn edge_locks(graph: &G) -> Vec<bool> {
    (0..graph.edge_count()).map(|i| graph.edge(EdgeRef { index: i }).lock()).collect()
}

#[test]
fn new_list_is_empty() {
    let list = EdgeList::new();
    assert!(list.list.is_empty());
    assert_eq!(list.iter().count(), 0);
}

#[test]
fn add_appends_and_keeps_duplicates() {
    let (_, _, e) = graph_of(2, &[(0, 1), (1, 0)]);
    let list = list_of(&[e[1], e[0], e[1]]);
    assert_eq!(list.list, vec![e[1], e[0], e[1]]);
}

#[test]
fn find_index_gives_the_first_edge_with_the_same_ends() {
    let (mut graph, n, e) = graph_of(3, &[(0, 1), (1, 2), (0, 2)]);
    let list = list_of(&[e[1], e[0], e[1], e[0]]);
    assert_eq!(list.find_index(&graph, e[0]), Some(1));
    assert_eq!(list.find_index(&graph, e[1]), Some(0));
    assert_eq!(list.find_index(&graph, e[2]), None);
    // another edge between the same two nodes matches by its ends
    assert!(digraph::disconnect(&mut graph, n[0], n[1]));
    assert!(connect(&mut graph, n[0], n[1], 5));
    let twin = EdgeRef { index: 3 };
    assert_eq!(list.find_index(&graph, twin), Some(1));
    assert_eq!(EdgeList::new().find_index(&graph, e[0]), None);
}

#[test]
fn del_removes_the_first_match_only() {
    let (graph, _, e) = graph_of(3, &[(0, 1), (1, 2), (0, 2)]);
    let mut list = list_of(&[e[1], e[0], e[1], e[0]]);
    list.del(&graph, e[0]);
    assert_eq!(list.list, vec![e[1], e[1], e[0]]);
    list.del(&graph, e[2]);
    assert_eq!(list.list, vec![e[1], e[1], e[0]]);
    list.del(&graph, e[1]);
    assert_eq!(list.list, vec![e[1], e[0]]);
}

#[test]
fn del_index_ignores_a_position_out_of_range() {
    let (_, _, e) = graph_of(3, &[(0, 1), (1, 2), (0, 2)]);
    let mut list = list_of(&[e[0], e[1], e[2]]);
    list.del_index(3);
    assert_eq!(list.list, vec![e[0], e[1], e[2]]);
    list.del_index(usize::MAX);
    assert_eq!(list.list, vec![e[0], e[1], e[2]]);
    list.del_index(1);
    assert_eq!(list.list, vec![e[0], e[2]]);
    list.del_index(1);
    list.del_index(0);
    assert!(list.list.is_empty());
    list.del_index(0);
    assert!(list.list.is_empty());
}

#[test]
fn iter_goes_through_the_list_in_order() {
    let (_, _, e) = graph_of(3, &[(0, 1), (1, 2), (0, 2)]);
    let list = list_of(&[e[2], e[0], e[1]]);
    let seen: Vec<EdgeRef> = list.iter().copied().collect();
    assert_eq!(seen, vec![e[2], e[0], e[1]]);
}

#[test]
fn par_iter_fans_out_over_the_items_of_the_list() {
    let (_, _, e) = graph_of(3, &[(0, 1), (1, 2), (0, 2)]);
    let list = list_of(&[e[2], e[0], e[1], e[0]]);
    assert_eq!(list.par_iter().len(), 4);
    let seen: Vec<EdgeRef> = list.par_iter().copied().collect();
    assert_eq!(seen, vec![e[2], e[0], e[1], e[0]]);
    let sum: usize = list.par_iter().map(|e| e.index).sum();
    assert_eq!(sum, 3);
    assert_eq!(EdgeList::new().par_iter().count(), 0);
}

#[test]
fn clone_copies_the_handles() {
    let (_, _, e) = graph_of(2, &[(0, 1), (1, 0)]);
    let list = list_of(&[e[1], e[0]]);
    let mut copy = list.clone();
    assert_eq!(copy.list, list.list);
    copy.add(e[0]);
    assert_eq!(list.list.len(), 2);
}

#[test]
fn close_and_open_all_mark_edges_and_their_ends() {
    // edges 0:0->1, 1:1->2, 2:3->4
    let (mut graph, _, e) = graph_of(5, &[(0, 1), (1, 2), (3, 4)]);
    let list = list_of(&[e[0], e[1]]);
    let same = list.close_all(&mut graph);
    assert!(std::ptr::eq(same, &list));
    assert_eq!(node_locks(&graph), vec![CLOSED, CLOSED, CLOSED, OPEN, OPEN]);
    assert_eq!(edge_locks(&graph), vec![CLOSED, CLOSED, OPEN]);
    list_of(&[e[1]]).open_all(&mut graph);
    assert_eq!(node_locks(&graph), vec![CLOSED, OPEN, OPEN, OPEN, OPEN]);
    assert_eq!(edge_locks(&graph), vec![CLOSED, OPEN, OPEN]);
    list.open_all(&mut graph);
    assert_eq!(node_locks(&graph), vec![OPEN; 5]);
    assert_eq!(edge_locks(&graph), vec![OPEN; 3]);
}

#[test]
fn close_and_open_nodes_leave_edges_alone() {
    let (mut graph, _, e) = graph_of(5, &[(0, 1), (1, 2), (3, 4)]);
    let list = list_of(&[e[2]]);
    list.close_nodes(&mut graph);
    assert_eq!(node_locks(&graph), vec![OPEN, OPEN, OPEN, CLOSED, CLOSED]);
    assert_eq!(edge_locks(&graph), vec![OPEN; 3]);
    list.open_nodes(&mut graph);
    assert_eq!(node_locks(&graph), vec![OPEN; 5]);
}

#[test]
fn close_and_open_edges_leave_nodes_alone() {
    let (mut graph, _, e) = graph_of(5, &[(0, 1), (1, 2), (3, 4)]);
    let list = list_of(&[e[2], e[0]]);
    list.close_edges(&mut graph);
    assert_eq!(edge_locks(&graph), vec![CLOSED, OPEN, CLOSED]);
    assert_eq!(node_locks(&graph), vec![OPEN; 5]);
    list.open_edges(&mut graph);
    assert_eq!(edge_locks(&graph), vec![OPEN; 3]);
}

#[test]
fn bulk_operations_chain() {
    let (mut graph, _, e) = graph_of(3, &[(0, 1), (1, 2)]);
    let list = list_of(&[e[0]]);
    list.close_all(&mut graph).open_nodes(&mut graph);
    assert_eq!(node_locks(&graph), vec![OPEN; 3]);
    assert_eq!(edge_locks(&graph), vec![CLOSED, OPEN]);
}

#[test]
fn bulk_operation_on_an_empty_list_changes_nothing() {
    let (mut graph, n, e) = graph_of(2, &[(0, 1)]);
    graph.close_node(n[0]);
    EdgeList::new().open_all(&mut graph);
    EdgeList::new().close_all(&mut graph);
    assert_eq!(node_locks(&graph), vec![CLOSED, OPEN]);
    assert_eq!(graph.edge(e[0]).lock(), OPEN);
}

#[test]
fn backtrack_of_an_empty_list_is_nothing() {
    let (mut graph, _, _) = graph_of(2, &[(0, 1)]);
    assert!(EdgeList::new().backtrack(&mut graph).is_none());
}

#[test]
fn backtrack_of_one_edge_is_that_edge() {
    let (mut graph, _, e) = graph_of(2, &[(0, 1)]);
    let chain = list_of(&[e[0]]).backtrack(&mut graph).unwrap();
    assert_eq!(chain.list, vec![e[0]]);
}

#[test]
fn backtrack_walks_back_from_the_last_edge() {
    // 0:0->1, 1:0->2, 2:1->3, 3:2->4, 4:3->5
    let (mut graph, _, e) = graph_of(6, &[(0, 1), (0, 2), (1, 3), (2, 4), (3, 5)]);
    let trace = list_of(&[e[0], e[1], e[2], e[3], e[4]]);
    let chain = trace.backtrack(&mut graph).unwrap();
    assert_eq!(chain.list, vec![e[4], e[2], e[0]]);
}

#[test]
fn backtrack_takes_the_latest_edge_that_enters_the_source() {
    // two listed edges enter node 2; going backwards, the later one is met first
    // 0:0->2, 1:1->2, 2:2->3
    let (mut graph, _, e) = graph_of(4, &[(0, 2), (1, 2), (2, 3)]);
    let chain = list_of(&[e[0], e[1], e[2]]).backtrack(&mut graph).unwrap();
    assert_eq!(chain.list, vec![e[2], e[1]]);
}

#[test]
fn backtrack_skips_an_edge_that_stands_after_its_child() {
    // the edge into node 1 stands after the edge that leaves node 1
    // 0:0->1, 1:1->2
    let (mut graph, _, e) = graph_of(3, &[(0, 1), (1, 2)]);
    let chain = list_of(&[e[1], e[0]]).backtrack(&mut graph).unwrap();
    assert_eq!(chain.list, vec![e[0]]);
}

#[test]
fn backtrack_takes_a_self_loop_at_the_end_twice() {
    // 0:0->0
    let (mut graph, _, e) = graph_of(1, &[(0, 0)]);
    let chain = list_of(&[e[0]]).backtrack(&mut graph).unwrap();
    assert_eq!(chain.list, vec![e[0], e[0]]);
}

#[test]
fn backtrack_opens_what_the_list_touches() {
    let (mut graph, _, e) = graph_of(5, &[(0, 1), (1, 2), (3, 4)]);
    list_of(&[e[0], e[1], e[2]]).close_all(&mut graph);
    let chain = list_of(&[e[0], e[1]]).backtrack(&mut graph).unwrap();
    assert_eq!(chain.list, vec![e[1], e[0]]);
    assert_eq!(node_locks(&graph), vec![OPEN, OPEN, OPEN, CLOSED, CLOSED]);
    assert_eq!(edge_locks(&graph), vec![OPEN, OPEN, CLOSED]);
}
