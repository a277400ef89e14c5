use digraph::{connect, disconnect, EdgeRef, Graph, Node, NodeRef, CLOSED, OPEN};

type G = Graph<&'static str, u32, u32>;

fn graph_of(keys: &[&'static str], edges: &[(usize, usize)]) -> (G, Vec<NodeRef>) {
    let mut graph = G::new();
    let mut nodes = Vec::new();
    for key in keys {
        nodes.push(graph.add_node(*key, 0));
    }
    for (s, t) in edges {
        assert!(connect(&mut graph, nodes[*s], nodes[*t], 0));
    }
    (graph, nodes)
}

fn ends(graph: &G, list: &[EdgeRef]) -> Vec<(&'static str, &'static str)> {
    list.iter()
        .map(|e| {
            let edge = graph.edge(*e);
            (*graph.node(edge.source()).key(), *graph.node(edge.target()).key())
        })
        .collect()
}

fn all_open(graph: &G) -> bool {
    (0..graph.node_count()).all(|i| graph.node(NodeRef { index: i }).lock() == OPEN)
        && (0..graph.edge_count()).all(|i| graph.edge(EdgeRef { index: i }).lock() == OPEN)
}

fn traverse(graph: &mut G, a: NodeRef, b: NodeRef) -> Option<Vec<EdgeRef>> {
    Node::<&'static str, u32>::traverse_breadth(graph, a, b).map(|l| l.list)
}

fn shortest(graph: &mut G, a: NodeRef, b: NodeRef) -> Option<Vec<EdgeRef>> {
    Node::<&'static str, u32>::shortest_path(graph, a, b).map(|l| l.list)
}

#[test]
fn chain_of_three_gives_the_path_and_no_path_to_itself() {
    let (mut graph, n) = graph_of(&["A", "B", "C"], &[(0, 1), (1, 2)]);
    let path = shortest(&mut graph, n[0], n[2]).unwrap();
    assert_eq!(ends(&graph, &path), vec![("B", "C"), ("A", "B")]);
    let mut forward = path.clone();
    forward.reverse();
    assert_eq!(ends(&graph, &forward), vec![("A", "B"), ("B", "C")]);
    assert_eq!(shortest(&mut graph, n[0], n[0]), None);
    assert_eq!(traverse(&mut graph, n[0], n[0]), None);
    assert!(all_open(&graph));
}

#[test]
fn self_loop_does_not_reach_the_source() {
    let (mut graph, n) = graph_of(&["A", "B"], &[(0, 0), (0, 1), (1, 0)]);
    assert_eq!(shortest(&mut graph, n[0], n[0]), None);
    assert_eq!(traverse(&mut graph, n[0], n[0]), None);
    assert!(all_open(&graph));
}

#[test]
fn direct_edge_is_a_one_edge_chain() {
    let (mut graph, n) = graph_of(&["A", "B"], &[(0, 1)]);
    let path = shortest(&mut graph, n[0], n[1]).unwrap();
    assert_eq!(path.len(), 1);
    assert_eq!(graph.edge(path[0]).source(), n[0]);
    assert_eq!(graph.edge(path[0]).target(), n[1]);
    assert!(all_open(&graph));
}

#[test]
fn direct_edge_behind_another_edge_is_still_a_one_edge_chain() {
    let (mut graph, n) = graph_of(&["A", "X", "B"], &[(0, 1), (0, 2)]);
    let trace = traverse(&mut graph, n[0], n[2]).unwrap();
    assert_eq!(ends(&graph, &trace), vec![("A", "X"), ("A", "B")]);
    let path = shortest(&mut graph, n[0], n[2]).unwrap();
    assert_eq!(ends(&graph, &path), vec![("A", "B")]);
    assert!(all_open(&graph));
}

#[test]
fn unreachable_target_gives_no_path() {
    let (mut graph, n) = graph_of(&["A", "B", "C"], &[(0, 1), (2, 1), (2, 0)]);
    assert_eq!(shortest(&mut graph, n[0], n[2]), None);
    assert_eq!(traverse(&mut graph, n[0], n[2]), None);
    assert!(all_open(&graph));
}

#[test]
fn diamond_is_searched_in_queue_order() {
    let (mut graph, n) = graph_of(&["a", "x", "y", "b"], &[(0, 1), (0, 2), (1, 3), (2, 3)]);
    let trace = traverse(&mut graph, n[0], n[3]).unwrap();
    assert_eq!(trace.len(), 3);
    assert_eq!(ends(&graph, &trace), vec![("a", "x"), ("a", "y"), ("x", "b")]);
    assert!(all_open(&graph));
    let path = shortest(&mut graph, n[0], n[3]).unwrap();
    assert_eq!(path.len(), 2);
    assert_eq!(ends(&graph, &path), vec![("x", "b"), ("a", "x")]);
    assert!(all_open(&graph));
}

#[test]
fn flags_are_open_after_success_and_after_failure() {
    let (mut graph, n) = graph_of(&["A", "B", "C", "D"], &[(0, 1), (1, 2), (0, 2), (2, 0)]);
    assert!(traverse(&mut graph, n[0], n[2]).is_some());
    assert!(all_open(&graph));
    assert!(shortest(&mut graph, n[0], n[2]).is_some());
    assert!(all_open(&graph));
    assert!(traverse(&mut graph, n[0], n[3]).is_none());
    assert!(all_open(&graph));
    assert!(shortest(&mut graph, n[0], n[3]).is_none());
    assert!(all_open(&graph));
}

#[test]
fn source_without_edges_is_open_after_a_failed_search() {
    let (mut graph, n) = graph_of(&["A", "B"], &[(1, 0)]);
    assert_eq!(traverse(&mut graph, n[0], n[1]), None);
    assert_eq!(graph.node(n[0]).lock(), OPEN);
    assert_eq!(shortest(&mut graph, n[0], n[1]), None);
    assert_eq!(graph.node(n[0]).lock(), OPEN);
    assert!(shortest(&mut graph, n[1], n[0]).is_some());
    assert!(all_open(&graph));
}

#[test]
fn closed_node_is_an_obstacle_and_stays_closed() {
    let (mut graph, n) = graph_of(&["A", "B", "C"], &[(0, 1), (1, 2)]);
    graph.close_node(n[1]);
    assert_eq!(shortest(&mut graph, n[0], n[2]), None);
    assert_eq!(traverse(&mut graph, n[0], n[2]), None);
    assert_eq!(graph.node(n[1]).lock(), CLOSED);
    assert_eq!(graph.node(n[0]).lock(), OPEN);
    assert_eq!(graph.node(n[2]).lock(), OPEN);
    graph.open_node(n[1]);
    assert!(shortest(&mut graph, n[0], n[2]).is_some());
}

#[test]
fn closed_edge_is_an_obstacle_and_stays_closed() {
    let (mut graph, n) = graph_of(&["A", "B", "C"], &[(0, 1), (1, 2), (0, 2)]);
    let direct = graph.node(n[0]).outbound.list[1];
    graph.close_edge(direct);
    let path = shortest(&mut graph, n[0], n[2]).unwrap();
    assert_eq!(ends(&graph, &path), vec![("B", "C"), ("A", "B")]);
    assert_eq!(graph.edge(direct).lock(), CLOSED);
    graph.open_edge(direct);
    let path = shortest(&mut graph, n[0], n[2]).unwrap();
    assert_eq!(ends(&graph, &path), vec![("A", "C")]);
}

#[test]
fn closed_target_is_not_reached() {
    let (mut graph, n) = graph_of(&["A", "B"], &[(0, 1)]);
    graph.close_node(n[1]);
    assert_eq!(traverse(&mut graph, n[0], n[1]), None);
    assert_eq!(graph.node(n[1]).lock(), CLOSED);
}

#[test]
fn closed_source_is_searched_from_and_left_open() {
    let (mut graph, n) = graph_of(&["A", "B"], &[(0, 1)]);
    graph.close_node(n[0]);
    assert!(traverse(&mut graph, n[0], n[1]).is_some());
    assert_eq!(graph.node(n[0]).lock(), OPEN);
}

#[test]
fn shortest_path_takes_the_fewest_edges() {
    // A -> B -> C -> D -> E and A -> F -> E
    let (mut graph, n) = graph_of(
        &["A", "B", "C", "D", "E", "F"],
        &[(0, 1), (1, 2), (2, 3), (3, 4), (0, 5), (5, 4)],
    );
    let path = shortest(&mut graph, n[0], n[4]).unwrap();
    assert_eq!(ends(&graph, &path), vec![("F", "E"), ("A", "F")]);
    let trace = traverse(&mut graph, n[0], n[4]).unwrap();
    assert_eq!(
        ends(&graph, &trace),
        vec![("A", "B"), ("A", "F"), ("B", "C"), ("F", "E")]
    );
    assert!(all_open(&graph));
}

#[test]
fn cycle_is_searched_once() {
    let (mut graph, n) = graph_of(&["A", "B", "C", "D"], &[(0, 1), (1, 2), (2, 0), (2, 1)]);
    assert_eq!(traverse(&mut graph, n[0], n[3]), None);
    let trace = traverse(&mut graph, n[0], n[2]).unwrap();
    assert_eq!(ends(&graph, &trace), vec![("A", "B"), ("B", "C")]);
    assert!(all_open(&graph));
}

#[test]
fn search_follows_connect_and_disconnect() {
    let (mut graph, n) = graph_of(&["A", "B", "C"], &[(0, 1), (1, 2)]);
    assert!(shortest(&mut graph, n[0], n[2]).is_some());
    assert!(disconnect(&mut graph, n[1], n[2]));
    assert!(shortest(&mut graph, n[0], n[2]).is_none());
    assert!(connect(&mut graph, n[0], n[2], 0));
    let path = shortest(&mut graph, n[0], n[2]).unwrap();
    assert_eq!(ends(&graph, &path), vec![("A", "C")]);
}

#[test]
fn expansion_claims_and_queues_what_it_can() {
    let (mut graph, n) = graph_of(&["A", "B", "C", "D"], &[(0, 1), (0, 2), (0, 3)]);
    graph.close_node(n[2]);
    let mut queue = std::collections::VecDeque::new();
    let mut result = digraph::EdgeList::new();
    let found = Node::<&'static str, u32>::traverse_consume_node(
        &mut graph,
        n[0],
        n[2],
        &mut queue,
        &mut result,
    );
    assert!(!found);
    assert_eq!(queue, vec![n[1], n[3]]);
    assert_eq!(ends(&graph, &result.list), vec![("A", "B"), ("A", "D")]);
    assert_eq!(graph.node(n[1]).lock(), CLOSED);
    assert_eq!(graph.node(n[3]).lock(), CLOSED);
    assert_eq!(graph.node(n[0]).lock(), OPEN);
    assert_eq!(graph.edge(result.list[0]).lock(), CLOSED);
    assert_eq!(graph.edge(graph.node(n[0]).outbound.list[1]).lock(), OPEN);
}

#[test]
fn expansion_stops_at_the_target() {
    let (mut graph, n) = graph_of(&["A", "B", "C", "D"], &[(0, 1), (0, 2), (0, 3)]);
    let mut queue = std::collections::VecDeque::new();
    let mut result = digraph::EdgeList::new();
    let found = Node::<&'static str, u32>::traverse_consume_node(
        &mut graph,
        n[0],
        n[2],
        &mut queue,
        &mut result,
    );
    assert!(found);
    assert_eq!(queue, vec![n[1], n[2]]);
    assert_eq!(ends(&graph, &result.list), vec![("A", "B"), ("A", "C")]);
    assert_eq!(graph.node(n[3]).lock(), OPEN);
}
