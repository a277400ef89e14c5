//! The text by which nodes and edges describe themselves.

use std::fmt::Display;
use vstd::prelude::*;
use vstd::string::{to_string_from_display_ensures, StringExecFns};
use crate::handle::{EdgeRef, OPEN};
use crate::model::{EdgeState, GraphState, NodeState};

verus! {

/// The name of a traversal state.
pub open spec fn state_name(lock: bool) -> Seq<char> {
    if lock == OPEN {
        "OPEN"@
    } else {
        "CLOSED"@
    }
}

/// The description of an edge, from what its ends' keys, its flag and its
/// payload show as.
pub open spec fn edge_text(source: Seq<char>, target: Seq<char>, lock: bool, data: Seq<char>) -> Seq<
    char,
> {
    "\""@ + source + "\" -> \""@ + target + "\" : \""@ + state_name(lock) + "\" : \""@ + data
        + "\""@
}

/// The lines, each behind a tab and closed by a line feed.
pub open spec fn indented(lines: Seq<Seq<char>>) -> Seq<char>
    decreases lines.len(),
{
    if lines.len() == 0 {
        Seq::empty()
    } else {
        indented(lines.drop_last()) + "\t"@ + lines.last() + "\n"@
    }
}

/// A block of lines: nothing where there is no line, else a line feed and
/// the lines, each behind a tab and closed by a line feed.
pub open spec fn block(lines: Seq<Seq<char>>) -> Seq<char> {
    if lines.len() == 0 {
        Seq::empty()
    } else {
        "\n"@ + indented(lines)
    }
}

/// The description of a node, from what its key, its flag and its payload
/// show as and from the descriptions of its outbound and inbound edges.
pub open spec fn node_text(
    key: Seq<char>,
    lock: bool,
    data: Seq<char>,
    outbound: Seq<Seq<char>>,
    inbound: Seq<Seq<char>>,
) -> Seq<char> {
    "\""@ + key + "\" : \""@ + state_name(lock) + "\" : \""@ + data + "\" { "@ + block(outbound)
        + block(inbound) + "}"@
}

/// What each of the strings holds.
pub open spec fn texts(lines: Seq<String>) -> Seq<Seq<char>> {
    Seq::new(lines.len(), |k: int| lines[k]@)
}

/// `value` shows as `text`.
pub open spec fn shows<T: Display>(value: T, text: Seq<char>) -> bool {
    exists|shown: String| to_string_from_display_ensures::<T>(&value, shown) && shown@ == text
}

/// The name of a traversal state: `OPEN` or `CLOSED`.
pub fn lock_state(lock: bool) -> (name: &'static str)
    ensures
        name@ == state_name(lock),
{
    if lock == OPEN {
        "OPEN"
    } else {
        "CLOSED"
    }
}

/// Describes an edge: the keys of its ends, its traversal state and its
/// payload, each in double quotes.
pub fn render_edge(source: &str, target: &str, lock: bool, data: &str) -> (text: String)
    ensures
        text@ == edge_text(source@, target@, lock, data@),
{
    let mut text = String::from_str("\"");
    text.append(source);
    text.append("\" -> \"");
    text.append(target);
    text.append("\" : \"");
    text.append(lock_state(lock));
    text.append("\" : \"");
    text.append(data);
    text.append("\"");
    text
}

/// Appends a block of lines to `text`: nothing where there is no line, else a
/// line feed and the lines, each behind a tab and closed by a line feed.
fn append_block(text: &mut String, lines: &Vec<String>)
    ensures
        final(text)@ == old(text)@ + block(texts(lines@)),
{
    let ghost all = texts(lines@);
    if lines.len() == 0 {
        assert(text@ + Seq::<char>::empty() =~= text@);
        return ;
    }
    text.append("\n");
    assert(all.take(0) =~= Seq::<Seq<char>>::empty());
    assert(text@ =~= old(text)@ + "\n"@ + indented(all.take(0)));
    let mut i: usize = 0;
    while i < lines.len()
        invariant
            i <= lines@.len(),
            all == texts(lines@),
            text@ == old(text)@ + "\n"@ + indented(all.take(i as int)),
        decreases lines@.len() - i,
    {
        text.append("\t");
        text.append(lines[i].as_str());
        text.append("\n");
        proof {
            let next = all.take(i + 1);
            assert(next.drop_last() =~= all.take(i as int));
            assert(next.last() == lines@[i as int]@);
            assert(text@ =~= old(text)@ + "\n"@ + indented(next));
        }
        i += 1;
    }
    assert(all.take(lines@.len() as int) =~= all);
    assert(text@ =~= old(text)@ + block(all));
}

/// Describes a node: its key, its traversal state and its payload, each in
/// double quotes, then between braces the descriptions of its outbound edges
/// and those of its inbound edges, one to a line behind a tab, each group
/// behind an empty line.
pub fn render_node(
    key: &str,
    lock: bool,
    data: &str,
    outbound: &Vec<String>,
    inbound: &Vec<String>,
) -> (text: String)
    ensures
        text@ == node_text(key@, lock, data@, texts(outbound@), texts(inbound@)),
{
    let mut text = String::from_str("\"");
    text.append(key);
    text.append("\" : \"");
    text.append(lock_state(lock));
    text.append("\" : \"");
    text.append(data);
    text.append("\" { ");
    append_block(&mut text, outbound);
    append_block(&mut text, inbound);
    text.append("}");
    text
}

impl<K: Display, N: Display, E: Display> GraphState<K, N, E> {
    /// `text` describes `edge`: it is the description of an edge made from
    /// what the keys of the edge's ends and its payload show as.
    pub open spec fn describes_edge(self, edge: EdgeState<E>, text: Seq<char>) -> bool {
        exists|source: Seq<char>, target: Seq<char>, data: Seq<char>|
            #![trigger edge_text(source, target, edge.lock, data)]
            {
                &&& shows(self.node(edge.source).key, source)
                &&& shows(self.node(edge.target).key, target)
                &&& shows(edge.data, data)
                &&& text == edge_text(source, target, edge.lock, data)
            }
    }

    /// `lines` describe the edges of `list`, one each, in the order of the
    /// list.
    pub open spec fn describes_edges(self, list: Seq<EdgeRef>, lines: Seq<Seq<char>>) -> bool {
        &&& lines.len() == list.len()
        &&& forall|k: int|
            0 <= k < list.len() ==> self.describes_edge(self.edge(list[k]), #[trigger] lines[k])
    }

    /// `text` describes `node`: it is the description of a node made from
    /// what the node's key and payload show as and from descriptions of its
    /// outbound and of its inbound edges.
    pub open spec fn describes_node(self, node: NodeState<K, N>, text: Seq<char>) -> bool {
        exists|key: Seq<char>, data: Seq<char>, outbound: Seq<Seq<char>>, inbound: Seq<Seq<char>>|
            #![trigger node_text(key, node.lock, data, outbound, inbound)]
            {
                &&& shows(node.key, key)
                &&& shows(node.data, data)
                &&& self.describes_edges(node.outbound, outbound)
                &&& self.describes_edges(node.inbound, inbound)
                &&& text == node_text(key, node.lock, data, outbound, inbound)
            }
    }
}

} // verus!
