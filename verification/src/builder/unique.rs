//! Telling equal nodes apart from different ones, so that a small build can
//! keep one node of each kind.
//!
//! Two nodes are equal where they are of one kind, hold the same values and
//! lead to the same nodes. Two linear-match nodes are equal where they match
//! the same bytes, wherever in the key arena those stand.

use vstd::prelude::*;
use crate::builder::finalized::{branch_ok, final_ok, lemma_arena_frame, lemma_list_kids};
use crate::builder::graph::starts_with;
use crate::builder::marks::node_ok;
use crate::builder::node::{list_kids, node_kids, node_labels, node_trie, Node, NodeView};
use crate::builder::steps::{first_same, same_view, Tree};
use crate::trie::bytes_trie::slices_match;

verus! {

/// Two nodes that are ready to be written are of one kind, hold the same
/// values and bytes, and lead to the same nodes.
pub open spec fn same_node(a: Node, b: Node, strings: Seq<u8>) -> bool {
    match (a, b) {
        (Node::FinalValue(x), Node::FinalValue(y)) => x.value == y.value,
        (Node::LinearMatch(x), Node::LinearMatch(y)) => {
            &&& x.value == y.value
            &&& x.length == y.length
            &&& x.next == y.next
            &&& x.string_offset + x.length <= strings.len()
            &&& y.string_offset + y.length <= strings.len()
            &&& strings.subrange(x.string_offset as int, x.string_offset + x.length)
                == strings.subrange(y.string_offset as int, y.string_offset + y.length)
        },
        (Node::BranchHead(x), Node::BranchHead(y)) => {
            &&& x.value == y.value
            &&& x.length == y.length
            &&& x.next == y.next
        },
        (Node::IntermediateValue(x), Node::IntermediateValue(y)) => {
            &&& x.value == y.value
            &&& x.next == y.next
        },
        (Node::ListBranch(x), Node::ListBranch(y)) => {
            &&& x.units@ == y.units@
            &&& x.equal@ == y.equal@
            &&& x.values@ == y.values@
        },
        (Node::SplitBranch(x), Node::SplitBranch(y)) => {
            &&& x.unit == y.unit
            &&& x.less_than == y.less_than
            &&& x.greater_or_equal == y.greater_or_equal
        },
        _ => false,
    }
}

/// A value as a number that is not negative.
#[verifier::when_used_as_spec(spec_value_bits)]
pub fn value_bits(v: i32) -> (r: u64)
    ensures
        r == spec_value_bits(v),
{
    (v as i64 + 0x8000_0000) as u64
}

/// A value as a number that is not negative.
pub open spec fn spec_value_bits(v: i32) -> u64 {
    (v as i64 + 0x8000_0000) as u64
}

/// The hash `h` with `x` mixed in.
#[verifier::opaque]
pub open spec fn spec_mix(h: u64, x: u64) -> u64 {
    h.wrapping_mul(0x100_0000_01b3).wrapping_add(x)
}

/// The hash `h` with the bytes `s` mixed in, one after the other.
pub open spec fn hash_bytes(h: u64, s: Seq<u8>) -> u64
    decreases s.len(),
{
    if s.len() == 0 {
        h
    } else {
        spec_mix(hash_bytes(h, s.drop_last()), s.last() as u64)
    }
}

/// The hash `h` with the first `n` edges of a list mixed in.
pub open spec fn hash_edges(
    h: u64,
    units: Seq<u8>,
    equal: Seq<Option<usize>>,
    values: Seq<i32>,
    n: int,
) -> u64
    decreases n,
{
    if n <= 0 || n > units.len() || n > equal.len() || n > values.len() {
        h
    } else {
        let before = spec_mix(hash_edges(h, units, equal, values, n - 1), units[n - 1] as u64);
        let with_edge = match equal[n - 1] {
            Some(c) => spec_mix(before, c as u64),
            None => before,
        };
        spec_mix(with_edge, value_bits(values[n - 1]))
    }
}

/// The hash of a node: of what equal nodes have in common.
pub open spec fn spec_hash(node: Node, strings: Seq<u8>) -> u64 {
    match node {
        Node::FinalValue(n) => spec_mix(1, value_bits(n.value)),
        Node::LinearMatch(n) => if n.string_offset + n.length <= strings.len() {
            spec_mix(
                hash_bytes(
                    spec_mix(2, n.length as u64),
                    strings.subrange(n.string_offset as int, n.string_offset + n.length),
                ),
                n.next as u64,
            )
        } else {
            2
        },
        Node::DynamicBranch(n) => 3,
        Node::BranchHead(n) => spec_mix(spec_mix(4, n.length as u64), n.next as u64),
        Node::IntermediateValue(n) => spec_mix(spec_mix(5, value_bits(n.value)), n.next as u64),
        Node::ListBranch(n) => if n.units@.len() == n.equal@.len() && n.units@.len()
            == n.values@.len() {
            hash_edges(6, n.units@, n.equal@, n.values@, n.units@.len() as int)
        } else {
            6
        },
        Node::SplitBranch(n) => spec_mix(
            spec_mix(spec_mix(7, n.unit as u64), n.less_than as u64),
            n.greater_or_equal as u64,
        ),
    }
}

/// Nodes are equal where what they hold is equal.
pub proof fn lemma_same_view(a: Node, b: Node, strings: Seq<u8>)
    ensures
        same_node(a, b, strings) == same_view(a@, b@, strings),
{
}

/// Two nodes that equal a third equal each other.
pub proof fn lemma_same_view_both(a: NodeView, b: NodeView, c: NodeView, strings: Seq<u8>)
    requires
        same_view(a, c, strings),
        same_view(b, c, strings),
    ensures
        same_view(a, b, strings),
        same_view(b, a, strings),
{
}

/// A node equals every node that equals it.
pub proof fn lemma_same_view_turned(a: NodeView, b: NodeView, strings: Seq<u8>)
    ensures
        same_view(a, b, strings) == same_view(b, a, strings),
{
}

/// No two kept nodes are equal.
pub open spec fn kept_once(t: Tree, strings: Seq<u8>) -> bool {
    forall|a: usize, b: usize|
        #![trigger t.kept.contains(a), t.kept.contains(b)]
        t.kept.contains(a) && t.kept.contains(b) && a < t.nodes.len() && b < t.nodes.len()
            && same_view(t.nodes[a as int], t.nodes[b as int], strings) ==> a == b
}

/// Where no two kept nodes are equal, the kept node that equals `node` is
/// the first one that is found.
pub proof fn lemma_first_same(t: Tree, strings: Seq<u8>, node: NodeView, c: usize, from: int)
    requires
        0 <= from <= c < t.nodes.len(),
        t.nodes.len() <= usize::MAX,
        t.kept.contains(c),
        same_view(t.nodes[c as int], node, strings),
        kept_once(t, strings),
    ensures
        first_same(t, strings, node, from) == Some(c),
    decreases c - from,
{
    if from < c {
        if t.kept.contains(from as usize) && same_view(t.nodes[from], node, strings) {
            lemma_same_view_both(t.nodes[from], t.nodes[c as int], node, strings);
            assert(t.kept.contains(from as usize) && t.kept.contains(c));
        }
        lemma_first_same(t, strings, node, c, from + 1);
    }
}

/// Where no kept node equals `node`, none is found.
pub proof fn lemma_first_same_none(t: Tree, strings: Seq<u8>, node: NodeView, from: int)
    requires
        0 <= from,
        t.nodes.len() <= usize::MAX,
        forall|c: usize|
            t.kept.contains(c) && c < t.nodes.len() ==> !same_view(
                #[trigger] t.nodes[c as int],
                node,
                strings,
            ),
    ensures
        first_same(t, strings, node, from).is_none(),
    decreases t.nodes.len() - from,
{
    if from < t.nodes.len() {
        if t.kept.contains(from as usize) {
            assert(!same_view(t.nodes[from as usize as int], node, strings));
        }
        lemma_first_same_none(t, strings, node, from + 1);
    }
}

/// Equal nodes have equal hashes.
pub proof fn lemma_same_hash(a: Node, b: Node, strings: Seq<u8>)
    requires
        same_node(a, b, strings),
    ensures
        spec_hash(a, strings) == spec_hash(b, strings),
{
}

/// A node means the same as an equal node that would be added to the
/// arena.
pub proof fn lemma_same_node(nodes: Seq<Node>, strings: Seq<u8>, c: int, node: Node)
    requires
        0 <= c < nodes.len(),
        same_node(nodes[c], node, strings),
        node_ok(nodes, strings, c),
    ensures
        node_trie(nodes, strings, c) == node_trie(nodes.push(node), strings, nodes.len() as int),
        node_labels(nodes, c) == node_labels(nodes.push(node), nodes.len() as int),
        node_kids(nodes, strings, c) == node_kids(
            nodes.push(node),
            strings,
            nodes.len() as int,
        ),
        final_ok(nodes, strings, c) == final_ok(nodes.push(node), strings, nodes.len() as int),
        branch_ok(nodes, strings, c) == branch_ok(nodes.push(node), strings, nodes.len() as int),
{
    let n1 = nodes.push(node);
    let k = nodes.len() as int;
    assert(n1[k] == node);
    assert(starts_with(n1, nodes));
    match (nodes[c], node) {
        (Node::FinalValue(x), Node::FinalValue(y)) => {},
        (Node::LinearMatch(x), Node::LinearMatch(y)) => {
            lemma_arena_frame(nodes, n1, strings, y.next as int);
        },
        (Node::BranchHead(x), Node::BranchHead(y)) => {
            lemma_arena_frame(nodes, n1, strings, y.next as int);
        },
        (Node::IntermediateValue(x), Node::IntermediateValue(y)) => {
            lemma_arena_frame(nodes, n1, strings, y.next as int);
            assert(n1[y.next as int] == nodes[y.next as int]);
        },
        (Node::ListBranch(x), Node::ListBranch(y)) => {
            let len = y.equal@.len() as int;
            assert forall|j: int| 0 <= j < len implies match #[trigger] y.equal@[j] {
                Some(d) => d < c && node_trie(nodes, strings, d as int) == node_trie(
                    n1,
                    strings,
                    d as int,
                ) && final_ok(nodes, strings, d as int) == final_ok(n1, strings, d as int),
                None => true,
            } by {
                assert(x.equal@[j] == y.equal@[j]);
                match y.equal@[j] {
                    Some(d) => {
                        lemma_arena_frame(nodes, n1, strings, d as int);
                    },
                    None => {},
                }
            }
            lemma_list_kids(nodes, strings, c, y.equal@, y.values@, len);
            lemma_list_kids(n1, strings, k, y.equal@, y.values@, len);
            assert(list_kids(nodes, strings, c, x.equal@, x.values@, len) =~= list_kids(
                n1,
                strings,
                k,
                y.equal@,
                y.values@,
                len,
            ));
            assert(node_kids(nodes, strings, c) == node_kids(n1, strings, k));
            assert(branch_ok(nodes, strings, c) == branch_ok(n1, strings, k));
        },
        (Node::SplitBranch(x), Node::SplitBranch(y)) => {
            lemma_arena_frame(nodes, n1, strings, y.less_than as int);
            lemma_arena_frame(nodes, n1, strings, y.greater_or_equal as int);
            assert(node_kids(nodes, strings, c) == node_kids(n1, strings, k));
        },
        _ => {},
    }
}

/// Tells whether two vectors hold the same bytes.
pub fn same_bytes(a: &Vec<u8>, b: &Vec<u8>) -> (r: bool)
    ensures
        r == (a@ == b@),
{
    if a.len() != b.len() {
        return false;
    }
    let r: bool = slices_match(a.as_slice(), 0, b.as_slice(), 0, a.len());
    proof {
        assert(a@.subrange(0, a.len() as int) =~= a@);
        assert(b@.subrange(0, b.len() as int) =~= b@);
    }
    r
}

/// Tells whether two vectors hold the same values.
pub fn same_values(a: &Vec<i32>, b: &Vec<i32>) -> (r: bool)
    ensures
        r == (a@ == b@),
{
    if a.len() != b.len() {
        return false;
    }
    let mut i: usize = 0;
    while i < a.len()
        invariant
            i <= a.len(),
            a.len() == b.len(),
            a@.take(i as int) == b@.take(i as int),
        decreases a.len() - i,
    {
        if a[i] != b[i] {
            return false;
        }
        proof {
            assert(a@.take(i + 1) =~= a@.take(i as int).push(a[i as int]));
            assert(b@.take(i + 1) =~= b@.take(i as int).push(b[i as int]));
        }
        i = i + 1;
    }
    proof {
        assert(a@.take(a.len() as int) =~= a@);
        assert(b@.take(b.len() as int) =~= b@);
    }
    true
}

/// Tells whether two edges are the same: both end with a value, or both
/// lead to the same node.
pub fn same_edge(a: Option<usize>, b: Option<usize>) -> (r: bool)
    ensures
        r == (a == b),
{
    match (a, b) {
        (Some(x), Some(y)) => x == y,
        (None, None) => true,
        _ => false,
    }
}

/// Tells whether two vectors hold the same edges.
pub fn same_edges(a: &Vec<Option<usize>>, b: &Vec<Option<usize>>) -> (r: bool)
    ensures
        r == (a@ == b@),
{
    if a.len() != b.len() {
        return false;
    }
    let mut i: usize = 0;
    while i < a.len()
        invariant
            i <= a.len(),
            a.len() == b.len(),
            a@.take(i as int) == b@.take(i as int),
        decreases a.len() - i,
    {
        if !same_edge(a[i], b[i]) {
            return false;
        }
        proof {
            assert(a@.take(i + 1) =~= a@.take(i as int).push(a[i as int]));
            assert(b@.take(i + 1) =~= b@.take(i as int).push(b[i as int]));
        }
        i = i + 1;
    }
    proof {
        assert(a@.take(a.len() as int) =~= a@);
        assert(b@.take(b.len() as int) =~= b@);
    }
    true
}

/// Tells whether two optional values are the same.
pub fn same_value(a: Option<i32>, b: Option<i32>) -> (r: bool)
    ensures
        r == (a == b),
{
    match (a, b) {
        (Some(x), Some(y)) => x == y,
        (None, None) => true,
        _ => false,
    }
}

/// Mixes `x` into the hash `h`.
pub fn mix(h: u64, x: u64) -> (r: u64)
    ensures
        r == spec_mix(h, x),
{
    reveal(spec_mix);
    h.wrapping_mul(0x100_0000_01b3).wrapping_add(x)
}

impl Node {
    /// Tells whether `self` and `other` are equal nodes. Branches of the
    /// adding phase are never taken for equal.
    pub fn same(&self, other: &Node, strings: &Vec<u8>) -> (r: bool)
        ensures
            r == same_node(*self, *other, strings@),
    {
        match (self, other) {
            (Node::FinalValue(x), Node::FinalValue(y)) => x.value == y.value,
            (Node::LinearMatch(x), Node::LinearMatch(y)) => {
                let total: usize = strings.len();
                if same_value(x.value, y.value) && x.length == y.length && x.next == y.next
                    && x.string_offset <= total && x.length <= total - x.string_offset
                    && y.string_offset <= total && y.length <= total - y.string_offset {
                    slices_match(
                        strings.as_slice(),
                        x.string_offset,
                        strings.as_slice(),
                        y.string_offset,
                        x.length,
                    )
                } else {
                    false
                }
            },
            (Node::BranchHead(x), Node::BranchHead(y)) => same_value(x.value, y.value) && x.length
                == y.length && x.next == y.next,
            (Node::IntermediateValue(x), Node::IntermediateValue(y)) => x.value == y.value
                && x.next == y.next,
            (Node::ListBranch(x), Node::ListBranch(y)) => same_bytes(&x.units, &y.units)
                && same_edges(&x.equal, &y.equal) && same_values(&x.values, &y.values),
            (Node::SplitBranch(x), Node::SplitBranch(y)) => x.unit == y.unit && x.less_than
                == y.less_than && x.greater_or_equal == y.greater_or_equal,
            _ => false,
        }
    }

    /// The hash of the node, by which equal nodes are found again.
    pub fn hash_code(&self, strings: &Vec<u8>) -> (r: u64)
        ensures
            r == spec_hash(*self, strings@),
    {
        match self {
            Node::FinalValue(n) => mix(1, value_bits(n.value)),
            Node::LinearMatch(n) => {
                let total: usize = strings.len();
                if n.string_offset <= total && n.length <= total - n.string_offset {
                    let ghost bytes = strings@.subrange(
                        n.string_offset as int,
                        n.string_offset + n.length,
                    );
                    let mut h: u64 = mix(2, n.length as u64);
                    let mut j: usize = 0;
                    proof {
                        assert(bytes.take(0) =~= Seq::<u8>::empty());
                    }
                    while j < n.length
                        invariant
                            j <= n.length,
                            total == strings@.len(),
                            n.string_offset + n.length <= strings@.len(),
                            bytes == strings@.subrange(
                                n.string_offset as int,
                                n.string_offset + n.length,
                            ),
                            h == hash_bytes(spec_mix(2, n.length as u64), bytes.take(j as int)),
                        decreases n.length - j,
                    {
                        proof {
                            assert(bytes.take(j + 1).drop_last() =~= bytes.take(j as int));
                            assert(bytes.take(j + 1).last() == strings@[n.string_offset + j]);
                        }
                        h = mix(h, strings[n.string_offset + j] as u64);
                        j = j + 1;
                    }
                    proof {
                        assert(bytes.take(n.length as int) =~= bytes);
                    }
                    mix(h, n.next as u64)
                } else {
                    2
                }
            },
            Node::DynamicBranch(_) => 3,
            Node::BranchHead(n) => mix(mix(4, n.length as u64), n.next as u64),
            Node::IntermediateValue(n) => mix(mix(5, value_bits(n.value)), n.next as u64),
            Node::ListBranch(n) => {
                if n.units.len() != n.equal.len() || n.units.len() != n.values.len() {
                    return 6;
                }
                let mut h: u64 = 6;
                let mut j: usize = 0;
                while j < n.units.len()
                    invariant
                        j <= n.units@.len(),
                        n.units@.len() == n.equal@.len(),
                        n.units@.len() == n.values@.len(),
                        h == hash_edges(6, n.units@, n.equal@, n.values@, j as int),
                    decreases n.units@.len() - j,
                {
                    h = mix(h, n.units[j] as u64);
                    match n.equal[j] {
                        Some(c) => {
                            h = mix(h, c as u64);
                        },
                        None => {},
                    }
                    h = mix(h, value_bits(n.values[j]));
                    j = j + 1;
                }
                h
            },
            Node::SplitBranch(n) => mix(
                mix(mix(7, n.unit as u64), n.less_than as u64),
                n.greater_or_equal as u64,
            ),
        }
    }
}

} // verus!
