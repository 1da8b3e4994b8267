//! How the nodes lie in the bytes of the trie.
//!
//! The predicates here relate a node of the graph to the bytes from the
//! first byte of its serialized form to the end of the trie.

use vstd::prelude::*;
use crate::builder::graph::starts_with;
use crate::builder::node::Node;
use crate::encoding::{
    delta_of, delta_width, encode_value, spec_is_final, value_of, value_width, MIN_LINEAR_MATCH,
};

verus! {

/// The bytes `t` start with the value of a node, where it has one.
pub open spec fn value_in_front(t: Seq<u8>, value: Option<i32>) -> bool {
    match value {
        Some(v) => starts_with(t, encode_value(v, false)),
        None => true,
    }
}

/// The bytes `t` without the value of a node in front.
pub open spec fn after_value(t: Seq<u8>, value: Option<i32>) -> Seq<u8> {
    match value {
        Some(v) => t.skip(encode_value(v, false).len() as int),
        None => t,
    }
}

/// The bytes `t` start with the serialized form of the node `i`, at which
/// reading can start, and the nodes that it leads to lie where its bytes say.
pub open spec fn start_encodes(t: Seq<u8>, nodes: Seq<Node>, strings: Seq<u8>, i: int) -> bool
    decreases i, 1int,
{
    0 <= i < nodes.len() && match nodes[i] {
        Node::FinalValue(n) => starts_with(t, encode_value(n.value, true)),
        Node::IntermediateValue(n) => {
            &&& starts_with(t, encode_value(n.value, false))
            &&& n.next < i
            &&& start_encodes(
                t.skip(encode_value(n.value, false).len() as int),
                nodes,
                strings,
                n.next as int,
            )
        },
        Node::LinearMatch(n) => {
            let u = after_value(t, n.value);
            &&& value_in_front(t, n.value)
            &&& u.len() >= 1 + n.length
            &&& u[0] == MIN_LINEAR_MATCH + n.length - 1
            &&& u.subrange(1, 1 + n.length) == strings.subrange(
                n.string_offset as int,
                n.string_offset + n.length,
            )
            &&& n.next < i
            &&& start_encodes(u.skip(1 + n.length), nodes, strings, n.next as int)
        },
        Node::BranchHead(n) => {
            let u = after_value(t, n.value);
            &&& value_in_front(t, n.value)
            &&& n.next < i
            &&& if n.length <= MIN_LINEAR_MATCH {
                &&& u.len() >= 1
                &&& u[0] == n.length - 1
                &&& branch_encodes(u.skip(1), nodes, strings, n.next as int)
            } else {
                &&& u.len() >= 2
                &&& u[0] == 0
                &&& u[1] == n.length - 1
                &&& branch_encodes(u.skip(2), nodes, strings, n.next as int)
            }
        },
        _ => false,
    }
}

/// The bytes `t` start with the serialized form of the list or split node
/// `i`.
pub open spec fn branch_encodes(t: Seq<u8>, nodes: Seq<Node>, strings: Seq<u8>, i: int) -> bool
    decreases i, 1int,
{
    0 <= i < nodes.len() && match nodes[i] {
        Node::SplitBranch(n) => {
            &&& t.len() >= 2
            &&& t[0] == n.unit
            &&& t.len() >= 1 + delta_width(t[1])
            &&& delta_of(t.skip(1)) >= 0
            &&& 1 + delta_width(t[1]) + delta_of(t.skip(1)) <= t.len()
            &&& n.less_than < i
            &&& n.greater_or_equal < i
            &&& branch_encodes(
                t.skip(1 + delta_width(t[1]) + delta_of(t.skip(1))),
                nodes,
                strings,
                n.less_than as int,
            )
            &&& branch_encodes(
                t.skip(1 + delta_width(t[1])),
                nodes,
                strings,
                n.greater_or_equal as int,
            )
        },
        Node::ListBranch(n) => list_encodes(t, nodes, strings, i, 0),
        _ => false,
    }
}

/// The bytes `t` start with the serialized form of the edges of the list
/// node `i` from the edge `j` on.
pub open spec fn list_encodes(
    t: Seq<u8>,
    nodes: Seq<Node>,
    strings: Seq<u8>,
    i: int,
    j: int,
) -> bool
    decreases i, 0int, nodes[i]->ListBranch_0.units@.len() - j,
{
    0 <= i < nodes.len() && nodes[i] is ListBranch && {
        let n = nodes[i]->ListBranch_0;
        let k = n.units@.len();
        &&& 0 <= j < k
        &&& k == n.equal@.len()
        &&& k == n.values@.len()
        &&& t.len() >= 1
        &&& t[0] == n.units@[j]
        &&& if j == k - 1 {
            match n.equal@[j] {
                Some(c) => c < i && start_encodes(t.skip(1), nodes, strings, c as int),
                None => starts_with(t.skip(1), encode_value(n.values@[j], true)),
            }
        } else {
            &&& t.len() >= 2
            &&& t.len() >= 1 + value_width(t[1])
            &&& match n.equal@[j] {
                Some(c) => {
                    &&& !spec_is_final(t[1])
                    &&& value_of(t.skip(1)) >= 0
                    &&& 1 + value_width(t[1]) + value_of(t.skip(1)) <= t.len()
                    &&& c < i
                    &&& start_encodes(
                        t.skip(1 + value_width(t[1]) + value_of(t.skip(1))),
                        nodes,
                        strings,
                        c as int,
                    )
                },
                None => starts_with(t.skip(1), encode_value(n.values@[j], true)),
            }
            &&& list_encodes(t.skip(1 + value_width(t[1])), nodes, strings, i, j + 1)
        }
    }
}

/// The last `o` of the bytes `written`, in the order of the trie: the byte
/// that was written last comes first.
pub open spec fn tail(written: Seq<u8>, o: int) -> Seq<u8> {
    Seq::new(o as nat, |m: int| written[o - 1 - m])
}

/// A byte that is written comes in front.
pub proof fn lemma_tail_push(written: Seq<u8>, b: u8)
    ensures
        tail(written.push(b), written.len() as int + 1) == seq![b] + tail(
            written,
            written.len() as int,
        ),
{
    assert(tail(written.push(b), written.len() as int + 1) =~= seq![b] + tail(
        written,
        written.len() as int,
    ));
}

/// Going `n - m` bytes on from where `n` bytes are left leaves `m` bytes.
pub proof fn lemma_tail_skip(written: Seq<u8>, n: int, m: int)
    requires
        0 <= m <= n <= written.len(),
    ensures
        tail(written, n).skip(n - m) == tail(written, m),
{
    assert(tail(written, n).skip(n - m) =~= tail(written, m));
}

/// Bytes that are written later change nothing about the bytes before.
pub proof fn lemma_tail_stable(before: Seq<u8>, after: Seq<u8>, o: int)
    requires
        starts_with(after, before),
        0 <= o <= before.len(),
    ensures
        tail(after, o) == tail(before, o),
{
    assert(tail(after, o) =~= tail(before, o));
}

} // verus!
