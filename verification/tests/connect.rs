use digraph::{connect, disconnect, EdgeRef, Graph, NodeRef, CLOSED, OPEN};

fn two_nodes() -> (Graph<&'static str, u32, u32>, NodeRef, NodeRef) {
    let mut graph = Graph::new();
    let a = graph.add_node("A", 1);
    let b = graph.add_node("B", 2);
    (graph, a, b)
}

#[test]
fn connect_twice_returns_true_then_false() {
    let (mut graph, a, b) = two_nodes();
    let before = graph.node(a).outbound.list.len();
    assert!(connect(&mut graph, a, b, 7));
    assert!(!connect(&mut graph, a, b, 8));
    assert_eq!(graph.node(a).outbound.list.len(), before + 1);
    assert_eq!(graph.node(b).inbound.list.len(), 1);
    assert_eq!(graph.edge_count(), 1);
}

#[test]
fn connect_mirrors_the_edge_handle() {
    let (mut graph, a, b) = two_nodes();
    assert!(connect(&mut graph, a, b, 7));
    let out = graph.node(a).outbound.list.clone();
    let inb = graph.node(b).inbound.list.clone();
    assert_eq!(out, vec![EdgeRef { index: 0 }]);
    assert_eq!(inb, out);
    assert!(graph.node(a).inbound.list.is_empty());
    assert!(graph.node(b).outbound.list.is_empty());
    let edge = graph.edge(out[0]);
    assert_eq!(edge.source(), a);
    assert_eq!(edge.target(), b);
    assert_eq!(*edge.data(), 7);
    assert_eq!(edge.lock(), OPEN);
}

#[test]
fn refused_connect_keeps_the_first_payload() {
    let (mut graph, a, b) = two_nodes();
    assert!(connect(&mut graph, a, b, 7));
    assert!(!connect(&mut graph, a, b, 8));
    let e = graph.node(a).outbound.list[0];
    assert_eq!(*graph.edge(e).data(), 7);
}

#[test]
fn reverse_edge_is_independent() {
    let (mut graph, a, b) = two_nodes();
    assert!(connect(&mut graph, a, b, 1));
    assert!(connect(&mut graph, b, a, 2));
    assert_eq!(graph.node(a).outbound.list.len(), 1);
    assert_eq!(graph.node(a).inbound.list.len(), 1);
    assert_eq!(graph.node(b).outbound.list.len(), 1);
    assert_eq!(graph.node(b).inbound.list.len(), 1);
}

#[test]
fn self_loop_is_permitted_once() {
    let (mut graph, a, _) = two_nodes();
    assert!(connect(&mut graph, a, a, 1));
    assert!(!connect(&mut graph, a, a, 2));
    assert_eq!(graph.node(a).outbound.list, graph.node(a).inbound.list);
    assert_eq!(graph.node(a).outbound.list.len(), 1);
}

#[test]
fn disconnect_after_connect_restores_lengths() {
    let (mut graph, a, b) = two_nodes();
    let c = graph.add_node("C", 3);
    assert!(connect(&mut graph, a, c, 0));
    assert!(connect(&mut graph, c, b, 0));
    let out_before = graph.node(a).outbound.list.clone();
    let in_before = graph.node(b).inbound.list.clone();
    assert!(connect(&mut graph, a, b, 9));
    assert!(disconnect(&mut graph, a, b));
    assert_eq!(graph.node(a).outbound.list, out_before);
    assert_eq!(graph.node(b).inbound.list, in_before);
}

#[test]
fn disconnect_on_a_non_edge_changes_nothing() {
    let (mut graph, a, b) = two_nodes();
    assert!(connect(&mut graph, a, b, 9));
    assert!(!disconnect(&mut graph, b, a));
    assert_eq!(graph.node(a).outbound.list.len(), 1);
    assert_eq!(graph.node(b).inbound.list.len(), 1);
    assert!(graph.node(b).outbound.list.is_empty());
    assert!(graph.node(a).inbound.list.is_empty());
}

#[test]
fn disconnect_removes_the_inbound_entry_of_that_source() {
    let (mut graph, a, b) = two_nodes();
    let c = graph.add_node("C", 3);
    assert!(connect(&mut graph, a, c, 1));
    assert!(connect(&mut graph, b, c, 2));
    assert!(disconnect(&mut graph, b, c));
    let left = graph.node(c).inbound.list.clone();
    assert_eq!(left.len(), 1);
    assert_eq!(graph.edge(left[0]).source(), a);
    assert_eq!(graph.node(a).outbound.list, left);
    assert!(graph.node(b).outbound.list.is_empty());
}

#[test]
fn disconnect_twice_returns_true_then_false() {
    let (mut graph, a, b) = two_nodes();
    assert!(connect(&mut graph, a, b, 9));
    assert!(disconnect(&mut graph, a, b));
    assert!(!disconnect(&mut graph, a, b));
    assert!(graph.node(a).outbound.list.is_empty());
    assert!(graph.node(b).inbound.list.is_empty());
}

#[test]
fn disconnected_edge_stays_readable() {
    let (mut graph, a, b) = two_nodes();
    assert!(connect(&mut graph, a, b, 9));
    let e = graph.node(a).outbound.list[0];
    assert!(disconnect(&mut graph, a, b));
    assert_eq!(graph.edge(e).source(), a);
    assert_eq!(graph.edge(e).target(), b);
    assert!(connect(&mut graph, a, b, 10));
    let again = graph.node(a).outbound.list[0];
    assert_ne!(again, e);
    assert_eq!(*graph.edge(again).data(), 10);
    assert_eq!(graph.edge_count(), 2);
}

#[test]
fn add_node_gives_handles_in_order() {
    let (mut graph, a, b) = two_nodes();
    assert_eq!(a, NodeRef { index: 0 });
    assert_eq!(b, NodeRef { index: 1 });
    assert_eq!(graph.node_count(), 2);
    let c = graph.add_node("C", 3);
    assert_eq!(c, NodeRef { index: 2 });
    assert_eq!(graph.node_count(), 3);
    assert_eq!(*graph.node(c).key(), "C");
    assert_eq!(graph.node(c).load(), 3);
    assert_eq!(graph.node(c).lock(), OPEN);
    assert!(graph.node(c).outbound.list.is_empty());
    assert!(graph.node(c).inbound.list.is_empty());
    assert_eq!(graph.node(a).load(), 1);
}

#[test]
fn find_gives_the_first_node_with_the_key() {
    let (mut graph, a, b) = two_nodes();
    assert_eq!(graph.find(&"A"), Some(a));
    assert_eq!(graph.find(&"B"), Some(b));
    assert_eq!(graph.find(&"Z"), None);
    let z = graph.add_node("Z", 0);
    assert_eq!(graph.find(&"Z"), Some(z));
    let twin = graph.add_node("A", 9);
    assert_ne!(twin, a);
    assert_eq!(graph.find(&"A"), Some(a));
    assert!(graph.node(a) == graph.node(twin));
    let empty: Graph<&str, u32, u32> = Graph::new();
    assert_eq!(empty.find(&"A"), None);
}

#[test]
fn graph_flags_and_payload_are_set_through_the_handle() {
    let (mut graph, a, b) = two_nodes();
    assert!(connect(&mut graph, a, b, 9));
    let e = graph.node(a).outbound.list[0];
    graph.close_node(a);
    graph.close_edge(e);
    assert_eq!(graph.node(a).lock(), CLOSED);
    assert_eq!(graph.node(b).lock(), OPEN);
    assert_eq!(graph.edge(e).lock(), CLOSED);
    graph.open_node(a);
    graph.open_edge(e);
    assert_eq!(graph.node(a).lock(), OPEN);
    assert_eq!(graph.edge(e).lock(), OPEN);
    graph.set_node_lock(b, CLOSED);
    graph.set_edge_lock(e, CLOSED);
    assert_eq!(graph.node(b).lock(), CLOSED);
    assert_eq!(graph.edge(e).lock(), CLOSED);
    graph.store(a, 41);
    assert_eq!(graph.node(a).load(), 41);
    assert_eq!(graph.node(b).load(), 2);
}
