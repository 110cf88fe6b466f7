//! The semantic tree that the parser produces.

use vstd::prelude::*;
use crate::text::{decimal, decimal_chars, append_chars, from_chars};

verus! {

broadcast use vstd::string::group_string_axioms;

/// A node of the semantic tree. Columns are always 0: nodes cover whole lines.
pub struct Node {
    pub id: String,
    pub node_type: String,
    pub label: String,
    pub start_line: u32,
    pub start_col: u32,
    pub end_line: u32,
    pub end_col: u32,
    pub content_hash: String,
    pub children: Vec<Node>,
}

/// The mathematical model of a node.
pub struct NodeSpec {
    pub id: Seq<char>,
    pub node_type: Seq<char>,
    pub label: Seq<char>,
    pub start_line: int,
    pub end_line: int,
    pub content_hash: Seq<char>,
    pub children: Seq<NodeSpec>,
}

/// `n` is the node that `s` describes, its children included.
pub open spec fn node_is(n: Node, s: NodeSpec) -> bool
    decreases s,
{
    &&& n.id@ == s.id
    &&& n.node_type@ == s.node_type
    &&& n.label@ == s.label
    &&& n.start_line == s.start_line
    &&& n.start_col == 0
    &&& n.end_line == s.end_line
    &&& n.end_col == 0
    &&& n.content_hash@ == s.content_hash
    &&& n.children@.len() == s.children.len()
    &&& forall|i: int| 0 <= i < s.children.len() ==> node_is(#[trigger] n.children@[i], s.children[i])
}

/// Each node of `ns` is the one that the same position of `ss` describes.
pub open spec fn nodes_are(ns: Seq<Node>, ss: Seq<NodeSpec>) -> bool {
    &&& ns.len() == ss.len()
    &&& forall|i: int| 0 <= i < ss.len() ==> node_is(#[trigger] ns[i], ss[i])
}

pub proof fn lemma_nodes_push(ns: Seq<Node>, ss: Seq<NodeSpec>, n: Node, s: NodeSpec)
    requires
        nodes_are(ns, ss),
        node_is(n, s),
    ensures
        nodes_are(ns.push(n), ss.push(s)),
{
    assert forall|i: int| 0 <= i < ss.push(s).len() implies node_is(
        #[trigger] ns.push(n)[i],
        ss.push(s)[i],
    ) by {
        if i < ss.len() {
            assert(ns.push(n)[i] == ns[i]);
            assert(ss.push(s)[i] == ss[i]);
        }
    }
}

/// The id of the `k`-th child of the node with id `parent`.
pub open spec fn child_id(parent: Seq<char>, k: nat) -> Seq<char> {
    parent + seq!['.'] + decimal(k)
}

/// A node on one line without children or content hash.
pub open spec fn leaf(id: Seq<char>, node_type: Seq<char>, label: Seq<char>, line: int) -> NodeSpec {
    NodeSpec {
        id,
        node_type,
        label,
        start_line: line,
        end_line: line,
        content_hash: seq![],
        children: seq![],
    }
}

pub fn child_id_chars(parent: &[char], k: usize) -> (r: Vec<char>)
    ensures
        r@ == child_id(parent@, k as nat),
{
    let mut r: Vec<char> = Vec::new();
    append_chars(&mut r, parent);
    r.push('.');
    let d = decimal_chars(k);
    append_chars(&mut r, &d);
    r
}

/// A node with the given fields.
pub fn new_node(
    id: &[char],
    node_type: &str,
    label: &[char],
    start_line: u32,
    end_line: u32,
    content_hash: &[char],
    children: Vec<Node>,
) -> (r: Node)
    ensures
        r.id@ == id@,
        r.node_type@ == node_type@,
        r.label@ == label@,
        r.start_line == start_line,
        r.start_col == 0,
        r.end_line == end_line,
        r.end_col == 0,
        r.content_hash@ == content_hash@,
        r.children == children,
{
    Node {
        id: from_chars(id),
        node_type: node_type.to_owned(),
        label: from_chars(label),
        start_line,
        start_col: 0,
        end_line,
        end_col: 0,
        content_hash: from_chars(content_hash),
        children,
    }
}

/// A node on one line, without children or content hash.
pub fn leaf_node(id: &[char], node_type: &str, label: &[char], line: u32) -> (r: Node)
    ensures
        node_is(r, leaf(id@, node_type@, label@, line as int)),
{
    let empty: Vec<char> = Vec::new();
    let r = new_node(id, node_type, label, line, line, &empty, Vec::new());
    assert(r.children@.len() == 0);
    r
}

/// A node on one line, without children or content hash.
pub fn make_leaf(id: &str, node_type: &str, label: String, line: u32) -> (r: Node)
    ensures
        node_is(r, leaf(id@, node_type@, label@, line as int)),
{
    let i = crate::text::to_chars(id);
    let l = crate::text::to_chars(label.as_str());
    leaf_node(&i, node_type, &l, line)
}

} // verus!
