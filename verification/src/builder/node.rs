//! The nodes of the trie under construction.
//!
//! Nodes live in an arena and refer to each other by index. A node is never
//! changed once it is in the arena: an operation that alters a node adds the
//! altered node and hands its index back. A node therefore only refers to
//! nodes that were added before it, and the graph has no cycles.

use vstd::prelude::*;
use crate::model::{leaf, lin, Trie};

verus! {

/// A leaf: the key ends here with this value.
#[derive(Debug)]
pub struct FinalValueNode {
    pub value: i32,
}

/// Matches `length` bytes of the key arena from `string_offset` on, and
/// goes on to `next`. `value` belongs to the key that ends before them.
#[derive(Debug)]
pub struct LinearMatchNode {
    pub value: Option<i32>,
    pub string_offset: usize,
    pub length: usize,
    pub next: usize,
}

/// A branch while keys are added: one edge per byte of `chars`, which is
/// strictly ascending, to the node at the same place in `equal`.
#[derive(Debug)]
pub struct DynamicBranchNode {
    pub value: Option<i32>,
    pub chars: Vec<u8>,
    pub equal: Vec<usize>,
}

/// The head of a finished branch with `length` edges, stored in the list
/// and split nodes under `next`.
#[derive(Debug)]
pub struct BranchHeadNode {
    pub value: Option<i32>,
    pub length: usize,
    pub next: usize,
}

/// A value in front of a node that cannot hold one itself.
#[derive(Debug)]
pub struct IntermediateValueNode {
    pub value: i32,
    pub next: usize,
}

/// A short stretch of the edges of a finished branch. The edge of
/// `units[i]` leads to the node `equal[i]`, or ends with `values[i]` where
/// `equal[i]` is `None`.
#[derive(Debug)]
pub struct ListBranchNode {
    pub units: Vec<u8>,
    pub equal: Vec<Option<usize>>,
    pub values: Vec<i32>,
}

/// A binary split of the edges of a finished branch: the edges with bytes
/// below `unit` are under `less_than`, the others under `greater_or_equal`.
#[derive(Debug)]
pub struct SplitBranchNode {
    pub unit: u8,
    pub less_than: usize,
    pub greater_or_equal: usize,
}

/// A node of any kind.
#[derive(Debug)]
pub enum Node {
    FinalValue(FinalValueNode),
    LinearMatch(LinearMatchNode),
    DynamicBranch(DynamicBranchNode),
    BranchHead(BranchHeadNode),
    IntermediateValue(IntermediateValueNode),
    ListBranch(ListBranchNode),
    SplitBranch(SplitBranchNode),
}

impl FinalValueNode {
    pub fn new(value: i32) -> (r: Self)
        ensures
            r.value == value,
    {
        FinalValueNode { value }
    }
}

impl LinearMatchNode {
    /// A node without a value for `length` bytes at `offset` of the arena.
    pub fn new(offset: usize, length: usize, next_node: usize) -> (r: Self)
        ensures
            r.value.is_none(),
            r.string_offset == offset,
            r.length == length,
            r.next == next_node,
    {
        LinearMatchNode { value: None, string_offset: offset, length, next: next_node }
    }
}

impl DynamicBranchNode {
    /// A branch without a value and without edges.
    pub fn new() -> (r: Self)
        ensures
            r.value.is_none(),
            r.chars@ == Seq::<u8>::empty(),
            r.equal@ == Seq::<usize>::empty(),
    {
        DynamicBranchNode { value: None, chars: Vec::new(), equal: Vec::new() }
    }
}

impl BranchHeadNode {
    pub fn new(length: usize, sub_node: usize) -> (r: Self)
        ensures
            r.value.is_none(),
            r.length == length,
            r.next == sub_node,
    {
        BranchHeadNode { value: None, length, next: sub_node }
    }
}

impl IntermediateValueNode {
    pub fn new(value: i32, next_node: usize) -> (r: Self)
        ensures
            r.value == value,
            r.next == next_node,
    {
        IntermediateValueNode { value, next: next_node }
    }
}

impl ListBranchNode {
    /// A list without edges, with room for `capacity` of them.
    pub fn new(capacity: usize) -> (r: Self)
        ensures
            r.units@ == Seq::<u8>::empty(),
            r.equal@ == Seq::<Option<usize>>::empty(),
            r.values@ == Seq::<i32>::empty(),
    {
        ListBranchNode {
            units: Vec::with_capacity(capacity),
            equal: Vec::with_capacity(capacity),
            values: Vec::with_capacity(capacity),
        }
    }

    /// Adds the edge of `c`, which ends with `value`.
    pub fn add_with_final_value(&mut self, c: u8, value: i32)
        ensures
            final(self).units@ == old(self).units@.push(c),
            final(self).equal@ == old(self).equal@.push(None),
            final(self).values@ == old(self).values@.push(value),
    {
        self.units.push(c);
        self.equal.push(None);
        self.values.push(value);
    }

    /// Adds the edge of `c`, which leads to `node`.
    pub fn add_with_match_node(&mut self, c: u8, node: usize)
        ensures
            final(self).units@ == old(self).units@.push(c),
            final(self).equal@ == old(self).equal@.push(Some(node)),
            final(self).values@ == old(self).values@.push(0i32),
    {
        self.units.push(c);
        self.equal.push(Some(node));
        self.values.push(0);
    }
}

impl SplitBranchNode {
    pub fn new(middle_unit: u8, less_than: usize, greater_or_equal: usize) -> (r: Self)
        ensures
            r.unit == middle_unit,
            r.less_than == less_than,
            r.greater_or_equal == greater_or_equal,
    {
        SplitBranchNode { unit: middle_unit, less_than, greater_or_equal }
    }
}

/// What a node holds, as a value.
#[allow(inconsistent_fields)]
pub enum NodeView {
    FinalValue { value: i32 },
    LinearMatch { value: Option<i32>, string_offset: usize, length: usize, next: usize },
    DynamicBranch { value: Option<i32>, chars: Seq<u8>, equal: Seq<usize> },
    BranchHead { value: Option<i32>, length: usize, next: usize },
    IntermediateValue { value: i32, next: usize },
    ListBranch { units: Seq<u8>, equal: Seq<Option<usize>>, values: Seq<i32> },
    SplitBranch { unit: u8, less_than: usize, greater_or_equal: usize },
}

impl Node {
    /// What the node holds.
    pub open spec fn view(&self) -> NodeView {
        match *self {
            Node::FinalValue(n) => NodeView::FinalValue { value: n.value },
            Node::LinearMatch(n) => NodeView::LinearMatch {
                value: n.value,
                string_offset: n.string_offset,
                length: n.length,
                next: n.next,
            },
            Node::DynamicBranch(n) => NodeView::DynamicBranch {
                value: n.value,
                chars: n.chars@,
                equal: n.equal@,
            },
            Node::BranchHead(n) => NodeView::BranchHead {
                value: n.value,
                length: n.length,
                next: n.next,
            },
            Node::IntermediateValue(n) => NodeView::IntermediateValue {
                value: n.value,
                next: n.next,
            },
            Node::ListBranch(n) => NodeView::ListBranch {
                units: n.units@,
                equal: n.equal@,
                values: n.values@,
            },
            Node::SplitBranch(n) => NodeView::SplitBranch {
                unit: n.unit,
                less_than: n.less_than,
                greater_or_equal: n.greater_or_equal,
            },
        }
    }

    /// A linear-match node without a value for `len` bytes of the key arena
    /// from `string_offset` on.
    pub fn new_linear_match_node(string_offset: usize, len: usize, next_node: usize) -> (r: Self)
        ensures
            r == Node::LinearMatch(
                LinearMatchNode { value: None, string_offset, length: len, next: next_node },
            ),
    {
        Node::LinearMatch(LinearMatchNode::new(string_offset, len, next_node))
    }

    /// A final-value node.
    pub fn new_final_value_node(value: i32) -> (r: Self)
        ensures
            r == Node::FinalValue(FinalValueNode { value }),
    {
        Node::FinalValue(FinalValueNode::new(value))
    }

    /// A branch node without a value and without edges.
    pub fn new_dynamic_branch_node() -> (r: Self)
        ensures
            r is DynamicBranch,
            r->DynamicBranch_0.value.is_none(),
            r->DynamicBranch_0.chars@ == Seq::<u8>::empty(),
            r->DynamicBranch_0.equal@ == Seq::<usize>::empty(),
    {
        Node::DynamicBranch(DynamicBranchNode::new())
    }
}

/// The trie under the node `i`, or a placeholder where `i` is no earlier
/// node than `limit`.
pub open spec fn sub_trie(nodes: Seq<Node>, strings: Seq<u8>, limit: int, i: int) -> Trie
    decreases limit, 0int,
{
    if 0 <= i < limit {
        node_trie(nodes, strings, i)
    } else {
        leaf(0)
    }
}

/// The trie that the node `i` of the arena stands for.
pub open spec fn node_trie(nodes: Seq<Node>, strings: Seq<u8>, i: int) -> Trie
    decreases i, 3int,
{
    if i < 0 || i >= nodes.len() {
        leaf(0)
    } else {
        match nodes[i] {
            Node::FinalValue(n) => leaf(n.value),
            Node::LinearMatch(n) => lin(
                n.value,
                strings.subrange(n.string_offset as int, n.string_offset + n.length),
                sub_trie(nodes, strings, i, n.next as int),
            ),
            Node::DynamicBranch(n) => Trie {
                value: n.value,
                labels: n.chars@,
                kids: dynamic_kids(nodes, strings, i, n.equal@, n.equal@.len() as int),
            },
            Node::BranchHead(n) => Trie {
                value: n.value,
                labels: sub_labels(nodes, i, n.next as int),
                kids: sub_kids(nodes, strings, i, n.next as int),
            },
            Node::IntermediateValue(n) => Trie {
                value: Some(n.value),
                ..sub_trie(nodes, strings, i, n.next as int)
            },
            Node::ListBranch(n) => Trie {
                value: None,
                labels: node_labels(nodes, i),
                kids: node_kids(nodes, strings, i),
            },
            Node::SplitBranch(n) => Trie {
                value: None,
                labels: node_labels(nodes, i),
                kids: node_kids(nodes, strings, i),
            },
        }
    }
}

/// The tries under the first `n` edges of a dynamic branch at `i`.
pub open spec fn dynamic_kids(
    nodes: Seq<Node>,
    strings: Seq<u8>,
    i: int,
    equal: Seq<usize>,
    n: int,
) -> Seq<Trie>
    decreases i, 1int, n,
{
    if n <= 0 || n > equal.len() {
        seq![]
    } else {
        dynamic_kids(nodes, strings, i, equal, n - 1).push(
            sub_trie(nodes, strings, i, equal[n - 1] as int),
        )
    }
}

/// The tries under the first `n` edges of a list node at `i`.
pub open spec fn list_kids(
    nodes: Seq<Node>,
    strings: Seq<u8>,
    i: int,
    equal: Seq<Option<usize>>,
    values: Seq<i32>,
    n: int,
) -> Seq<Trie>
    decreases i, 1int, n,
{
    if n <= 0 || n > equal.len() || n > values.len() {
        seq![]
    } else {
        list_kids(nodes, strings, i, equal, values, n - 1).push(
            match equal[n - 1] {
                Some(c) => sub_trie(nodes, strings, i, c as int),
                None => leaf(values[n - 1]),
            },
        )
    }
}

/// The edge bytes of the branch part under `j`, an earlier node than `limit`.
pub open spec fn sub_labels(nodes: Seq<Node>, limit: int, j: int) -> Seq<u8>
    decreases limit, 0int,
{
    if 0 <= j < limit {
        node_labels(nodes, j)
    } else {
        seq![]
    }
}

/// The edge bytes of the list or split node `i`, in order.
pub open spec fn node_labels(nodes: Seq<Node>, i: int) -> Seq<u8>
    decreases i, 1int,
{
    if i < 0 || i >= nodes.len() {
        seq![]
    } else {
        match nodes[i] {
            Node::ListBranch(n) => n.units@,
            Node::SplitBranch(n) => sub_labels(nodes, i, n.less_than as int) + sub_labels(
                nodes,
                i,
                n.greater_or_equal as int,
            ),
            _ => seq![],
        }
    }
}

/// The tries under the edges of the branch part under `j`, an earlier node
/// than `limit`.
pub open spec fn sub_kids(nodes: Seq<Node>, strings: Seq<u8>, limit: int, j: int) -> Seq<Trie>
    decreases limit, 0int,
{
    if 0 <= j < limit {
        node_kids(nodes, strings, j)
    } else {
        seq![]
    }
}

/// The tries under the edges of the list or split node `i`, in order.
pub open spec fn node_kids(nodes: Seq<Node>, strings: Seq<u8>, i: int) -> Seq<Trie>
    decreases i, 2int,
{
    if i < 0 || i >= nodes.len() {
        seq![]
    } else {
        match nodes[i] {
            Node::ListBranch(n) => list_kids(
                nodes,
                strings,
                i,
                n.equal@,
                n.values@,
                n.equal@.len() as int,
            ),
            Node::SplitBranch(n) => sub_kids(nodes, strings, i, n.less_than as int) + sub_kids(
                nodes,
                strings,
                i,
                n.greater_or_equal as int,
            ),
            _ => seq![],
        }
    }
}

} // verus!
