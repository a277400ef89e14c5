use std::hash::{Hash, Hasher};

use digraph::render::{lock_state, render_edge, render_node};
use digraph::{connect, Edge, EdgeRef, Graph, Node, NodeRef, CLOSED, OPEN};

#[test]
fn states_are_two_booleans() {
    assert_eq!(OPEN, false);
    assert_eq!(CLOSED, true);
}

#[test]
fn new_node_is_open_and_has_no_edges() {
    let node: Node<&str, u32> = Node::new("A", 3);
    assert_eq!(*node.key(), "A");
    assert_eq!(node.load(), 3);
    assert_eq!(node.lock(), OPEN);
    assert!(node.outbound.list.is_empty());
    assert!(node.inbound.list.is_empty());
}

#[test]
fn store_replaces_the_payload() {
    let mut node: Node<&str, String> = Node::new("A", "one".to_string());
    node.store("two".to_string());
    assert_eq!(node.load(), "two");
    assert_eq!(*node.key(), "A");
}

#[test]
fn close_and_open_set_the_flag() {
    let mut node: Node<&str, u32> = Node::new("A", 3);
    node.close();
    assert_eq!(node.lock(), CLOSED);
    node.close();
    assert_eq!(node.lock(), CLOSED);
    node.open();
    assert_eq!(node.lock(), OPEN);
    assert_eq!(node.load(), 3);
}

#[test]
fn nodes_are_equal_by_key_alone() {
    let mut a: Node<&str, u32> = Node::new("A", 1);
    let other_payload: Node<&str, u32> = Node::new("A", 2);
    let other_key: Node<&str, u32> = Node::new("B", 1);
    a.close();
    assert!(a == other_payload);
    assert!(a != other_key);
}

fn hash_of<T: Hash>(value: &T) -> u64 {
    let mut state = std::collections::hash_map::DefaultHasher::new();
    value.hash(&mut state);
    state.finish()
}

#[test]
fn nodes_hash_by_key_alone() {
    let mut a: Node<&str, u32> = Node::new("A", 1);
    let other_payload: Node<&str, u32> = Node::new("A", 2);
    let other_key: Node<&str, u32> = Node::new("B", 1);
    a.close();
    assert_eq!(hash_of(&a), hash_of(&other_payload));
    assert_eq!(hash_of(&a), hash_of(&"A"));
    assert_ne!(hash_of(&a), hash_of(&other_key));
    let mut set = std::collections::HashSet::new();
    assert!(set.insert(a));
    assert!(!set.insert(other_payload));
    assert!(set.insert(other_key));
}

#[test]
fn clone_is_a_node_of_its_own() {
    let mut graph: Graph<&str, u32, u32> = Graph::new();
    let a = graph.add_node("A", 1);
    let b = graph.add_node("B", 2);
    assert!(connect(&mut graph, a, b, 0));
    graph.close_node(a);
    let mut copy = graph.node(a).clone();
    assert_eq!(*copy.key(), "A");
    assert_eq!(copy.load(), 1);
    assert_eq!(copy.lock(), CLOSED);
    assert_eq!(copy.outbound.list, graph.node(a).outbound.list);
    assert_eq!(copy.inbound.list, graph.node(a).inbound.list);
    copy.store(9);
    copy.open();
    assert_eq!(graph.node(a).load(), 1);
    assert_eq!(graph.node(a).lock(), CLOSED);
}

#[test]
fn find_outbound_and_find_inbound_give_the_position() {
    let mut graph: Graph<&str, u32, u32> = Graph::new();
    let a = graph.add_node("A", 1);
    let b = graph.add_node("B", 2);
    let c = graph.add_node("C", 3);
    let d = graph.add_node("D", 4);
    assert!(connect(&mut graph, a, b, 0));
    assert!(connect(&mut graph, a, c, 0));
    assert!(connect(&mut graph, b, c, 0));
    assert!(connect(&mut graph, c, c, 0));
    assert_eq!(graph.node(a).find_outbound(&graph, b), Some(0));
    assert_eq!(graph.node(a).find_outbound(&graph, c), Some(1));
    assert_eq!(graph.node(a).find_outbound(&graph, a), None);
    assert_eq!(graph.node(a).find_outbound(&graph, d), None);
    assert_eq!(graph.node(d).find_outbound(&graph, a), None);
    assert_eq!(graph.node(c).find_inbound(&graph, a), Some(0));
    assert_eq!(graph.node(c).find_inbound(&graph, b), Some(1));
    assert_eq!(graph.node(c).find_inbound(&graph, c), Some(2));
    assert_eq!(graph.node(c).find_inbound(&graph, d), None);
    assert_eq!(graph.node(a).find_inbound(&graph, b), None);
}

#[test]
fn edge_holds_its_ends_its_payload_and_a_flag() {
    let a = NodeRef { index: 0 };
    let b = NodeRef { index: 1 };
    let mut edge: Edge<&str> = Edge::new(a, b, "road");
    assert_eq!(edge.source(), a);
    assert_eq!(edge.target(), b);
    assert_eq!(*edge.data(), "road");
    assert_eq!(edge.lock(), OPEN);
    edge.close();
    assert_eq!(edge.lock(), CLOSED);
    edge.open();
    assert_eq!(edge.lock(), OPEN);
    assert_eq!(edge.source(), a);
    assert_eq!(edge.target(), b);
}

#[test]
fn lock_state_names_the_two_states() {
    assert_eq!(lock_state(OPEN), "OPEN");
    assert_eq!(lock_state(CLOSED), "CLOSED");
}

#[test]
fn render_edge_gives_the_exact_text() {
    assert_eq!(render_edge("A", "B", OPEN, "7"), "\"A\" -> \"B\" : \"OPEN\" : \"7\"");
    assert_eq!(render_edge("", "", CLOSED, ""), "\"\" -> \"\" : \"CLOSED\" : \"\"");
}

#[test]
fn render_node_gives_the_exact_text() {
    let none: Vec<String> = Vec::new();
    let one = vec!["x".to_string()];
    let two = vec!["y".to_string(), "z".to_string()];
    assert_eq!(render_node("A", OPEN, "1", &none, &none), "\"A\" : \"OPEN\" : \"1\" { }");
    assert_eq!(
        render_node("A", CLOSED, "1", &one, &none),
        "\"A\" : \"CLOSED\" : \"1\" { \n\tx\n}"
    );
    assert_eq!(
        render_node("A", OPEN, "1", &none, &two),
        "\"A\" : \"OPEN\" : \"1\" { \n\ty\n\tz\n}"
    );
    assert_eq!(
        render_node("A", OPEN, "1", &two, &one),
        "\"A\" : \"OPEN\" : \"1\" { \n\ty\n\tz\n\n\tx\n}"
    );
}

#[test]
fn to_string_describes_the_node_and_its_edges() {
    let mut graph: Graph<&str, u32, f64> = Graph::new();
    let a = graph.add_node("A", 1);
    let b = graph.add_node("B", 2);
    let c = graph.add_node("C", 3);
    assert_eq!(graph.node(a).to_string(&graph), "\"A\" : \"OPEN\" : \"1\" { }");
    assert!(connect(&mut graph, a, b, 0.5));
    assert!(connect(&mut graph, a, c, 1.5));
    assert!(connect(&mut graph, c, a, 2.5));
    graph.close_node(a);
    graph.close_edge(EdgeRef { index: 1 });
    assert_eq!(
        graph.edge(EdgeRef { index: 1 }).to_string(&graph),
        "\"A\" -> \"C\" : \"CLOSED\" : \"1.5\""
    );
    assert_eq!(
        graph.node(a).to_string(&graph),
        "\"A\" : \"CLOSED\" : \"1\" { \n\
         \t\"A\" -> \"B\" : \"OPEN\" : \"0.5\"\n\
         \t\"A\" -> \"C\" : \"CLOSED\" : \"1.5\"\n\
         \n\
         \t\"C\" -> \"A\" : \"OPEN\" : \"2.5\"\n\
         }"
    );
    assert_eq!(
        graph.node(b).to_string(&graph),
        "\"B\" : \"OPEN\" : \"2\" { \n\t\"A\" -> \"B\" : \"OPEN\" : \"0.5\"\n}"
    );
}
