//! The shape of the node graph once it is ready to be written.
//!
//! Building turns the nodes of the adding phase into nodes that correspond
//! one to one to the units of the serialized trie: linear-match nodes of at
//! most 16 bytes, branch heads over list and split nodes, and intermediate
//! values in front of nodes that hold none themselves.

use vstd::prelude::*;
use crate::builder::graph::{lemma_dynamic_kids, starts_with};
use crate::builder::node::{
    dynamic_kids, list_kids, node_kids, node_labels, node_trie, sub_trie, Node,
};
use crate::encoding::{MAX_BRANCH_LINEAR_SUB_NODE_LENGTH, MAX_LINEAR_MATCH_LENGTH};
use crate::model::leaf;

verus! {

/// A linear-match node or a branch head without a value of its own.
pub open spec fn plain(node: Node) -> bool {
    match node {
        Node::LinearMatch(n) => n.value.is_none(),
        Node::BranchHead(n) => n.value.is_none(),
        _ => false,
    }
}

/// The node `i` and all nodes under it are ready to be written, and `i` is
/// a node at which reading can start: a final value, an intermediate
/// value, a linear match of at most 16 bytes, or a branch head.
pub open spec fn final_ok(nodes: Seq<Node>, strings: Seq<u8>, i: int) -> bool
    decreases i,
{
    0 <= i < nodes.len() && match nodes[i] {
        Node::FinalValue(_) => true,
        Node::LinearMatch(n) => {
            &&& 1 <= n.length <= MAX_LINEAR_MATCH_LENGTH
            &&& n.string_offset + n.length <= strings.len()
            &&& n.next < i
            &&& final_ok(nodes, strings, n.next as int)
        },
        Node::IntermediateValue(n) => {
            &&& n.next < i
            &&& final_ok(nodes, strings, n.next as int)
            &&& plain(nodes[n.next as int])
        },
        Node::BranchHead(n) => {
            &&& n.next < i
            &&& branch_ok(nodes, strings, n.next as int)
            &&& n.length == node_labels(nodes, n.next as int).len()
            &&& n.length <= 256
        },
        _ => false,
    }
}

/// The node `i` is a list or split node that is ready to be written, with
/// all nodes under it. A list has two to five edges; an edge that ends with
/// a final value holds the value itself and leads to no node. A split has more than
/// five edges under it, the smaller half of them under `less_than`, and
/// splits on the first byte of the other half.
pub open spec fn branch_ok(nodes: Seq<Node>, strings: Seq<u8>, i: int) -> bool
    decreases i,
{
    0 <= i < nodes.len() && match nodes[i] {
        Node::ListBranch(n) => {
            &&& n.units@.len() == n.equal@.len()
            &&& n.units@.len() == n.values@.len()
            &&& 2 <= n.units@.len() <= MAX_BRANCH_LINEAR_SUB_NODE_LENGTH
            &&& forall|j: int|
                0 <= j < n.equal@.len() ==> match #[trigger] n.equal@[j] {
                    Some(c) => c < i && final_ok(nodes, strings, c as int) && !(
                    nodes[c as int] is FinalValue),
                    None => true,
                }
        },
        Node::SplitBranch(n) => {
            &&& n.less_than < i
            &&& n.greater_or_equal < i
            &&& branch_ok(nodes, strings, n.less_than as int)
            &&& branch_ok(nodes, strings, n.greater_or_equal as int)
            &&& node_labels(nodes, n.less_than as int).len() + node_labels(
                nodes,
                n.greater_or_equal as int,
            ).len() > MAX_BRANCH_LINEAR_SUB_NODE_LENGTH
            &&& node_labels(nodes, n.less_than as int).len() == (node_labels(
                nodes,
                n.less_than as int,
            ).len() + node_labels(nodes, n.greater_or_equal as int).len()) / 2
            &&& n.unit == node_labels(nodes, n.greater_or_equal as int)[0]
        },
        _ => false,
    }
}

/// The tries under the edges of a list node, one by one.
pub proof fn lemma_list_kids(
    nodes: Seq<Node>,
    strings: Seq<u8>,
    i: int,
    equal: Seq<Option<usize>>,
    values: Seq<i32>,
    n: int,
)
    requires
        0 <= n <= equal.len(),
        n <= values.len(),
    ensures
        list_kids(nodes, strings, i, equal, values, n).len() == n,
        forall|j: int|
            0 <= j < n ==> #[trigger] list_kids(nodes, strings, i, equal, values, n)[j]
                == match equal[j] {
                Some(c) => sub_trie(nodes, strings, i, c as int),
                None => leaf(values[j]),
            },
    decreases n,
{
    if n > 0 {
        lemma_list_kids(nodes, strings, i, equal, values, n - 1);
    }
}

/// A finished branch part has as many sub-tries as edge bytes, two at least.
pub proof fn lemma_branch_shape(nodes: Seq<Node>, strings: Seq<u8>, i: int)
    requires
        branch_ok(nodes, strings, i),
    ensures
        node_labels(nodes, i).len() == node_kids(nodes, strings, i).len(),
        node_labels(nodes, i).len() >= 2,
    decreases i,
{
    match nodes[i] {
        Node::ListBranch(n) => {
            lemma_list_kids(nodes, strings, i, n.equal@, n.values@, n.equal@.len() as int);
        },
        Node::SplitBranch(n) => {
            lemma_branch_shape(nodes, strings, n.less_than as int);
            lemma_branch_shape(nodes, strings, n.greater_or_equal as int);
        },
        _ => {},
    }
}

/// While the key arena stays as it is, nodes that are added later change
/// nothing about an earlier node.
pub proof fn lemma_arena_frame(nodes1: Seq<Node>, nodes2: Seq<Node>, strings: Seq<u8>, i: int)
    requires
        starts_with(nodes2, nodes1),
        0 <= i < nodes1.len(),
    ensures
        node_trie(nodes2, strings, i) == node_trie(nodes1, strings, i),
        node_labels(nodes2, i) == node_labels(nodes1, i),
        node_kids(nodes2, strings, i) == node_kids(nodes1, strings, i),
        final_ok(nodes2, strings, i) == final_ok(nodes1, strings, i),
        branch_ok(nodes2, strings, i) == branch_ok(nodes1, strings, i),
    decreases i,
{
    assert(nodes2[i] == nodes1[i]);
    match nodes1[i] {
        Node::FinalValue(_) => {},
        Node::LinearMatch(n) => {
            if n.next < i {
                lemma_arena_frame(nodes1, nodes2, strings, n.next as int);
            }
            assert(node_trie(nodes2, strings, i) == node_trie(nodes1, strings, i));
        },
        Node::IntermediateValue(n) => {
            if n.next < i {
                lemma_arena_frame(nodes1, nodes2, strings, n.next as int);
                assert(nodes2[n.next as int] == nodes1[n.next as int]);
            }
            assert(node_trie(nodes2, strings, i) == node_trie(nodes1, strings, i));
        },
        Node::BranchHead(n) => {
            if n.next < i {
                lemma_arena_frame(nodes1, nodes2, strings, n.next as int);
            }
            assert(node_trie(nodes2, strings, i) == node_trie(nodes1, strings, i));
        },
        Node::DynamicBranch(n) => {
            let len = n.equal@.len() as int;
            lemma_dynamic_kids(nodes1, strings, i, n.equal@, len);
            lemma_dynamic_kids(nodes2, strings, i, n.equal@, len);
            assert forall|j: int| 0 <= j < len implies sub_trie(
                nodes2,
                strings,
                i,
                n.equal@[j] as int,
            ) == sub_trie(nodes1, strings, i, n.equal@[j] as int) by {
                if n.equal@[j] < i {
                    lemma_arena_frame(nodes1, nodes2, strings, n.equal@[j] as int);
                }
            }
            assert(dynamic_kids(nodes2, strings, i, n.equal@, len) =~= dynamic_kids(
                nodes1,
                strings,
                i,
                n.equal@,
                len,
            ));
            assert(node_trie(nodes2, strings, i) == node_trie(nodes1, strings, i));
        },
        Node::ListBranch(n) => {
            let len = n.equal@.len() as int;
            assert forall|j: int| 0 <= j < len implies match #[trigger] n.equal@[j] {
                Some(c) => c < i ==> node_trie(nodes2, strings, c as int) == node_trie(
                    nodes1,
                    strings,
                    c as int,
                ) && final_ok(nodes2, strings, c as int) == final_ok(nodes1, strings, c as int),
                None => true,
            } by {
                match n.equal@[j] {
                    Some(c) => {
                        if c < i {
                            lemma_arena_frame(nodes1, nodes2, strings, c as int);
                        }
                    },
                    None => {},
                }
            }
            if len > n.values@.len() {
                assert(list_kids(nodes2, strings, i, n.equal@, n.values@, len) =~= list_kids(
                    nodes1,
                    strings,
                    i,
                    n.equal@,
                    n.values@,
                    len,
                ));
            } else {
                lemma_list_kids(nodes1, strings, i, n.equal@, n.values@, len);
                lemma_list_kids(nodes2, strings, i, n.equal@, n.values@, len);
                assert(list_kids(nodes2, strings, i, n.equal@, n.values@, len) =~= list_kids(
                    nodes1,
                    strings,
                    i,
                    n.equal@,
                    n.values@,
                    len,
                ));
            }
            assert(node_kids(nodes2, strings, i) == node_kids(nodes1, strings, i));
            assert(node_trie(nodes2, strings, i) == node_trie(nodes1, strings, i));
        },
        Node::SplitBranch(n) => {
            if n.less_than < i {
                lemma_arena_frame(nodes1, nodes2, strings, n.less_than as int);
            }
            if n.greater_or_equal < i {
                lemma_arena_frame(nodes1, nodes2, strings, n.greater_or_equal as int);
            }
            assert(node_kids(nodes2, strings, i) == node_kids(nodes1, strings, i));
            assert(node_trie(nodes2, strings, i) == node_trie(nodes1, strings, i));
        },
    }
}

} // verus!
