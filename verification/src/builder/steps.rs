//! The three passes of building, step by step: which nodes registration
//! makes, which number every node gets, and which bytes are written in which
//! order.
//!
//! Each function here follows one node of the graph and says what the pass
//! leaves behind. Together they give the bytes of a build as a function of
//! the node graph that the builder holds.

use vstd::prelude::*;
use crate::builder::arena::Arena;
use crate::builder::node::NodeView;
use crate::builder::register::BuildMode;
use crate::encoding::{
    encode_delta, encode_value, MAX_BRANCH_LINEAR_SUB_NODE_LENGTH, MAX_LINEAR_MATCH_LENGTH,
    MIN_LINEAR_MATCH,
};

verus! {

/// Two nodes that are ready to be written are equal: of one kind, with the
/// same values and edges, and linear matches with the same bytes.
pub open spec fn same_view(a: NodeView, b: NodeView, strings: Seq<u8>) -> bool {
    match (a, b) {
        (NodeView::FinalValue { value: x }, NodeView::FinalValue { value: y }) => x == y,
        (
            NodeView::LinearMatch { value: xv, string_offset: xo, length: xl, next: xn },
            NodeView::LinearMatch { value: yv, string_offset: yo, length: yl, next: yn },
        ) => {
            &&& xv == yv
            &&& xl == yl
            &&& xn == yn
            &&& xo + xl <= strings.len()
            &&& yo + yl <= strings.len()
            &&& strings.subrange(xo as int, xo + xl) == strings.subrange(yo as int, yo + yl)
        },
        (
            NodeView::BranchHead { value: xv, length: xl, next: xn },
            NodeView::BranchHead { value: yv, length: yl, next: yn },
        ) => xv == yv && xl == yl && xn == yn,
        (
            NodeView::IntermediateValue { value: xv, next: xn },
            NodeView::IntermediateValue { value: yv, next: yn },
        ) => xv == yv && xn == yn,
        (
            NodeView::ListBranch { units: xu, equal: xe, values: xv },
            NodeView::ListBranch { units: yu, equal: ye, values: yv },
        ) => xu == yu && xe == ye && xv == yv,
        (
            NodeView::SplitBranch { unit: xu, less_than: xl, greater_or_equal: xg },
            NodeView::SplitBranch { unit: yu, less_than: yl, greater_or_equal: yg },
        ) => xu == yu && xl == yl && xg == yg,
        _ => false,
    }
}

/// The nodes while they are registered: the arena, and the nodes that are
/// kept to be used again.
pub struct Tree {
    pub nodes: Seq<NodeView>,
    pub kept: Set<usize>,
}

/// The first node from `from` on that is kept and equals `node`.
pub open spec fn first_same(t: Tree, strings: Seq<u8>, node: NodeView, from: int) -> Option<usize>
    decreases t.nodes.len() - from,
{
    if from < 0 || from >= t.nodes.len() {
        None
    } else if t.kept.contains(from as usize) && same_view(t.nodes[from], node, strings) {
        Some(from as usize)
    } else {
        first_same(t, strings, node, from + 1)
    }
}

/// Registers one node: a fast build adds it; a small build uses the kept
/// node that equals it, or adds it and keeps it.
pub open spec fn reg_node(t: Tree, strings: Seq<u8>, mode: BuildMode, node: NodeView) -> (
    Tree,
    usize,
) {
    if mode == BuildMode::Fast {
        (Tree { nodes: t.nodes.push(node), ..t }, t.nodes.len() as usize)
    } else {
        match first_same(t, strings, node, 0) {
            Some(c) => (t, c),
            None => (
                Tree { nodes: t.nodes.push(node), kept: t.kept.insert(t.nodes.len() as usize) },
                t.nodes.len() as usize,
            ),
        }
    }
}

/// Registers a node with the value in front of it that it cannot hold
/// itself, where there is one.
pub open spec fn reg_valued(
    t: Tree,
    strings: Seq<u8>,
    mode: BuildMode,
    value: Option<i32>,
    node: NodeView,
) -> (Tree, usize) {
    let (t1, inner) = reg_node(t, strings, mode, node);
    match value {
        Some(v) => reg_node(t1, strings, mode, NodeView::IntermediateValue { value: v, next: inner }),
        None => (t1, inner),
    }
}

/// Cuts the end of a linear match into pieces of 16 bytes, from its end,
/// until 16 bytes or fewer are left at its start. Returns the node that
/// the rest leads to, and the length of the rest.
pub open spec fn reg_pieces(
    t: Tree,
    strings: Seq<u8>,
    mode: BuildMode,
    offset: usize,
    length: usize,
    below: usize,
) -> (Tree, usize, usize)
    decreases length,
{
    if length > MAX_LINEAR_MATCH_LENGTH {
        let (t1, piece) = reg_node(
            t,
            strings,
            mode,
            NodeView::LinearMatch {
                value: None,
                string_offset: (offset + length - MAX_LINEAR_MATCH_LENGTH) as usize,
                length: MAX_LINEAR_MATCH_LENGTH,
                next: below,
            },
        );
        reg_pieces(t1, strings, mode, offset, (length - MAX_LINEAR_MATCH_LENGTH) as usize, piece)
    } else {
        (t, below, length)
    }
}

/// Registers the node `node` of the adding phase with all nodes under it.
///
/// * A final value stays as it is.
/// * A linear match leads to what its `next` is registered as. It is cut
///   into pieces of at most 16 bytes, the short piece first. Its value
///   stands in an intermediate-value node in front.
/// * A branch becomes a branch head over list and split nodes, with its
///   value in an intermediate-value node in front.
pub open spec fn reg(t: Tree, strings: Seq<u8>, mode: BuildMode, node: int) -> (Tree, usize)
    decreases node, 3int, 0int,
{
    if node < 0 || node >= t.nodes.len() {
        (t, 0)
    } else {
        match t.nodes[node] {
            NodeView::LinearMatch { value, string_offset, length, next } => {
                if next < node {
                    let (t1, below) = reg(t, strings, mode, next as int);
                    let (t2, rest, len) = reg_pieces(
                        t1,
                        strings,
                        mode,
                        string_offset,
                        length,
                        below,
                    );
                    reg_valued(
                        t2,
                        strings,
                        mode,
                        value,
                        NodeView::LinearMatch { value: None, string_offset, length: len, next: rest },
                    )
                } else {
                    (t, node as usize)
                }
            },
            NodeView::DynamicBranch { value, chars, equal } => {
                let (t1, sub) = reg_range(t, strings, mode, node, 0, chars.len() as int);
                reg_valued(
                    t1,
                    strings,
                    mode,
                    value,
                    NodeView::BranchHead { value: None, length: chars.len() as usize, next: sub },
                )
            },
            _ => (t, node as usize),
        }
    }
}

/// Registers the edges from `start` to `limit` of the branch `node`: as a
/// list where they are five at most, and else as a split on the byte of the
/// middle edge, with the edges before it registered first.
pub open spec fn reg_range(
    t: Tree,
    strings: Seq<u8>,
    mode: BuildMode,
    node: int,
    start: int,
    limit: int,
) -> (Tree, usize)
    decreases node, 2int, limit - start,
{
    if node < 0 || node >= t.nodes.len() || !(t.nodes[node] is DynamicBranch) || start < 0 {
        (t, 0)
    } else if limit - start > MAX_BRANCH_LINEAR_SUB_NODE_LENGTH {
        let middle = start + (limit - start) / 2;
        let (t1, less_than) = reg_range(t, strings, mode, node, start, middle);
        let (t2, greater_or_equal) = reg_range(t1, strings, mode, node, middle, limit);
        reg_node(
            t2,
            strings,
            mode,
            NodeView::SplitBranch {
                unit: t.nodes[node]->DynamicBranch_chars[middle],
                less_than,
                greater_or_equal,
            },
        )
    } else {
        let (t1, list) = reg_edges(
            t,
            strings,
            mode,
            node,
            start,
            limit,
            NodeView::ListBranch {
                units: Seq::<u8>::empty(),
                equal: Seq::<Option<usize>>::empty(),
                values: Seq::<i32>::empty(),
            },
        );
        reg_node(t1, strings, mode, list)
    }
}

/// Adds the edges from `j` to `limit` of the branch `node` to the list
/// `list`: an edge to a final value with the value itself, and any other
/// with the node that its child is registered as.
pub open spec fn reg_edges(
    t: Tree,
    strings: Seq<u8>,
    mode: BuildMode,
    node: int,
    j: int,
    limit: int,
    list: NodeView,
) -> (Tree, NodeView)
    decreases node, 1int, limit - j,
{
    if node < 0 || node >= t.nodes.len() || !(t.nodes[node] is DynamicBranch) || !(list
        is ListBranch) || j < 0 || j >= limit || j >= t.nodes[node]->DynamicBranch_chars.len() || j
        >= t.nodes[node]->DynamicBranch_equal.len() {
        (t, list)
    } else {
        let unit = t.nodes[node]->DynamicBranch_chars[j];
        let child = t.nodes[node]->DynamicBranch_equal[j];
        let units = list->ListBranch_units;
        let equal = list->ListBranch_equal;
        let values = list->ListBranch_values;
        if child >= node {
            (t, list)
        } else {
            match t.nodes[child as int] {
                NodeView::FinalValue { value } => reg_edges(
                    t,
                    strings,
                    mode,
                    node,
                    j + 1,
                    limit,
                    NodeView::ListBranch {
                        units: units.push(unit),
                        equal: equal.push(None),
                        values: values.push(value),
                    },
                ),
                _ => {
                    let (t1, registered) = reg(t, strings, mode, child as int);
                    reg_edges(
                        t1,
                        strings,
                        mode,
                        node,
                        j + 1,
                        limit,
                        NodeView::ListBranch {
                            units: units.push(unit),
                            equal: equal.push(Some(registered)),
                            values: values.push(0i32),
                        },
                    )
                },
            }
        }
    }
}

/// The numbers of the nodes: for each node its edge number, and for each
/// list and split node the number that it started with.
pub struct Marks {
    pub offs: Seq<i32>,
    pub firsts: Seq<i32>,
}

impl Marks {
    /// The numbers with the number `number` for the node `node`, which
    /// started with `first`.
    pub open spec fn set(self, node: int, first: i32, number: i32) -> Marks {
        Marks { offs: self.offs.update(node, number), firsts: self.firsts.update(node, first) }
    }
}

/// Numbers the node `node` and the nodes under it that have no number yet,
/// from `e` down, and returns the last number given.
///
/// * A node that has a number keeps it.
/// * A node that leads on to one node gets the number that numbering that
///   node ends with.
/// * A split numbers its part with the greater bytes first, and its other
///   part from the next number on.
/// * A list numbers the node of its last edge first, and the nodes of its
///   other edges from right to left, each from the next number on.
pub open spec fn numbered(nodes: Seq<NodeView>, m: Marks, node: int, e: i32) -> (Marks, i32)
    decreases node, 1int, 0int,
{
    if node < 0 || node >= nodes.len() || node >= m.offs.len() || m.offs[node] != 0 {
        (m, e)
    } else {
        match nodes[node] {
            NodeView::FinalValue { .. } => (m.set(node, e, e), e),
            NodeView::LinearMatch { next, .. } => numbered_through(nodes, m, node, next, e),
            NodeView::IntermediateValue { next, .. } => numbered_through(nodes, m, node, next, e),
            NodeView::BranchHead { next, .. } => numbered_through(nodes, m, node, next, e),
            NodeView::SplitBranch { less_than, greater_or_equal, .. } => {
                if less_than < node && greater_or_equal < node {
                    let (m1, e1) = numbered(nodes, m, greater_or_equal as int, e);
                    let (m2, e2) = numbered(nodes, m1, less_than as int, (e1 - 1) as i32);
                    (m2.set(node, e, e2), e2)
                } else {
                    (m, e)
                }
            },
            NodeView::ListBranch { equal, .. } => {
                if equal.len() == 0 {
                    (m, e)
                } else {
                    let (m1, e1) = match equal[equal.len() - 1] {
                        Some(c) => if c < node {
                            numbered(nodes, m, c as int, e)
                        } else {
                            (m, e)
                        },
                        None => (m, e),
                    };
                    let (m2, e2) = numbered_lefts(nodes, m1, node, equal.len() - 1, e1);
                    (m2.set(node, e, e2), e2)
                }
            },
            NodeView::DynamicBranch { .. } => (m, e),
        }
    }
}

/// Numbers a node that leads on to the one node `next`.
pub open spec fn numbered_through(nodes: Seq<NodeView>, m: Marks, node: int, next: usize, e: i32)
    -> (Marks, i32)
    decreases node, 0int, 0int,
{
    if next < node {
        let (m1, e1) = numbered(nodes, m, next as int, e);
        (m1.set(node, e, e1), e1)
    } else {
        (m, e)
    }
}

/// Numbers the nodes of the edges before the edge `i` of the list `node`,
/// from right to left, each from the number after the last one given.
pub open spec fn numbered_lefts(nodes: Seq<NodeView>, m: Marks, node: int, i: int, e: i32) -> (
    Marks,
    i32,
)
    decreases node, 0int, i,
{
    if i <= 0 || node < 0 || node >= nodes.len() || !(nodes[node] is ListBranch) || i
        > nodes[node]->ListBranch_equal.len() {
        (m, e)
    } else {
        let (m1, e1) = match nodes[node]->ListBranch_equal[i - 1] {
            Some(c) => if c < node {
                numbered(nodes, m, c as int, (e - 1) as i32)
            } else {
                (m, e)
            },
            None => (m, e),
        };
        numbered_lefts(nodes, m1, node, i - 1, e1)
    }
}

/// What is written: for each node its edge number, or its offset once it
/// is written, and the bytes in the order in which they were written, which
/// is from the end of the trie to its start.
pub struct Out {
    pub offs: Seq<i32>,
    pub bytes: Seq<u8>,
}

impl Out {
    /// After `front` is written, to be read in this order.
    pub open spec fn put(self, front: Seq<u8>) -> Out {
        Out { bytes: self.bytes + front.reverse(), ..self }
    }

    /// After the node `node` is noted as written in front of all bytes.
    pub open spec fn done(self, node: int) -> Out {
        Out { offs: self.offs.update(node, self.bytes.len() as i32), ..self }
    }
}

/// The lead byte `lead` of a node with the value of the node in front.
pub open spec fn value_and_type(value: Option<i32>, lead: u8) -> Seq<u8> {
    (match value {
        Some(v) => encode_value(v, false),
        None => Seq::<u8>::empty(),
    }) + seq![lead]
}

/// Writes the node `node`: first all that it leads to without a jump and
/// all that it jumps to unless that is written, and last the node itself,
/// so that in the trie the node stands in front.
///
/// * A final value is its encoded value with the final flag.
/// * An intermediate value is written after its node, as its encoded value
///   without the flag.
/// * A linear match is written after its node: its bytes, and in front of
///   them its lead byte, 0x10 and its length less one.
/// * A branch head is written after its list and split nodes: the number
///   of its edges less one as its lead byte, or after the lead byte 0 where
///   that is more than 15.
/// * A split writes its part with the smaller bytes, unless that is left
///   to the other part, and its other part; in front of them the jump to
///   the first part as a delta, and its byte.
/// * A list writes the nodes of its edges but the last from right to left,
///   unless they are written or left to the last edge, and the node or the
///   final value of its last edge; in front of that the byte of the last
///   edge, and in front of it for each other edge, from right to left, its
///   final value or the jump to its node, and its byte.
pub open spec fn wrote(
    nodes: Seq<NodeView>,
    strings: Seq<u8>,
    firsts: Seq<i32>,
    o: Out,
    node: int,
) -> Out
    decreases node, 1int, 0int,
{
    if node < 0 || node >= nodes.len() {
        o
    } else {
        match nodes[node] {
            NodeView::FinalValue { value } => o.put(encode_value(value, true)).done(node),
            NodeView::IntermediateValue { value, next } => {
                if next < node {
                    wrote(nodes, strings, firsts, o, next as int).put(
                        encode_value(value, false),
                    ).done(node)
                } else {
                    o
                }
            },
            NodeView::LinearMatch { value, string_offset, length, next } => {
                if next < node {
                    wrote(nodes, strings, firsts, o, next as int).put(
                        strings.subrange(string_offset as int, string_offset + length),
                    ).put(value_and_type(value, (MIN_LINEAR_MATCH + length - 1) as u8)).done(node)
                } else {
                    o
                }
            },
            NodeView::BranchHead { value, length, next } => {
                if next < node {
                    let o1 = wrote(nodes, strings, firsts, o, next as int);
                    if length <= MIN_LINEAR_MATCH {
                        o1.put(value_and_type(value, (length - 1) as u8)).done(node)
                    } else {
                        o1.put(seq![(length - 1) as u8]).put(value_and_type(value, 0)).done(node)
                    }
                } else {
                    o
                }
            },
            NodeView::SplitBranch { unit, less_than, greater_or_equal } => {
                if less_than < node && greater_or_equal < node {
                    let o1 = wrote_unless(
                        nodes,
                        strings,
                        firsts,
                        o,
                        less_than as int,
                        firsts[node],
                        o.offs[greater_or_equal as int],
                    );
                    let o2 = wrote(nodes, strings, firsts, o1, greater_or_equal as int);
                    o2.put(encode_delta((o2.bytes.len() - o2.offs[less_than as int]) as i32)).put(
                        seq![unit],
                    ).done(node)
                } else {
                    o
                }
            },
            NodeView::ListBranch { units, equal, values } => {
                if equal.len() == 0 || units.len() != equal.len() || values.len() != equal.len() {
                    o
                } else {
                    let last = equal.len() - 1;
                    let right_number = match equal[last] {
                        Some(rc) => o.offs[rc as int],
                        None => firsts[node],
                    };
                    let o1 = wrote_lefts(
                        nodes,
                        strings,
                        firsts,
                        o,
                        node,
                        last,
                        firsts[node],
                        right_number,
                    );
                    let o2 = match equal[last] {
                        Some(rc) => if rc < node {
                            wrote(nodes, strings, firsts, o1, rc as int)
                        } else {
                            o1
                        },
                        None => o1.put(encode_value(values[last], true)),
                    };
                    wrote_entries(units, equal, values, o2.put(seq![units[last]]), last).done(node)
                }
            },
            NodeView::DynamicBranch { .. } => o,
        }
    }
}

/// Writes the node `node` unless it is written, or will be written with
/// the rightmost edge of the branch that asks: its edge number lies from
/// `last_right` to `first_right`.
pub open spec fn wrote_unless(
    nodes: Seq<NodeView>,
    strings: Seq<u8>,
    firsts: Seq<i32>,
    o: Out,
    node: int,
    first_right: i32,
    last_right: i32,
) -> Out
    decreases node, 2int, 0int,
{
    if o.offs[node] < 0 && (o.offs[node] < last_right || first_right < o.offs[node]) {
        wrote(nodes, strings, firsts, o, node)
    } else {
        o
    }
}

/// Writes the nodes of the edges before the edge `i` of the list `node`,
/// from right to left, unless they are written or left to the last edge.
pub open spec fn wrote_lefts(
    nodes: Seq<NodeView>,
    strings: Seq<u8>,
    firsts: Seq<i32>,
    o: Out,
    node: int,
    i: int,
    first: i32,
    right_number: i32,
) -> Out
    decreases node, 0int, i,
{
    if i <= 0 || node < 0 || node >= nodes.len() || !(nodes[node] is ListBranch) || i
        > nodes[node]->ListBranch_equal.len() {
        o
    } else {
        let o1 = match nodes[node]->ListBranch_equal[i - 1] {
            Some(c) => if c < node {
                wrote_unless(nodes, strings, firsts, o, c as int, first, right_number)
            } else {
                o
            },
            None => o,
        };
        wrote_lefts(nodes, strings, firsts, o1, node, i - 1, first, right_number)
    }
}

/// Writes the edges before the edge `i` of a list, from right to left: for
/// each its final value, or the jump to its node as the distance from here
/// back to the node, and in front of that its byte.
pub open spec fn wrote_entries(
    units: Seq<u8>,
    equal: Seq<Option<usize>>,
    values: Seq<i32>,
    o: Out,
    i: int,
) -> Out
    decreases i,
{
    if i <= 0 || i > units.len() || i > equal.len() || i > values.len() {
        o
    } else {
        let entry = match equal[i - 1] {
            Some(c) => encode_value((o.bytes.len() - o.offs[c as int]) as i32, false),
            None => encode_value(values[i - 1], true),
        };
        wrote_entries(units, equal, values, o.put(entry).put(seq![units[i - 1]]), i - 1)
    }
}

/// For each node the number 0: no node is numbered.
pub open spec fn no_numbers(nodes: Seq<NodeView>) -> Seq<i32> {
    Seq::new(nodes.len(), |i: int| 0i32)
}

/// The bytes of the trie that is built from the node graph `graph` with
/// the root `root`: the nodes are registered, numbered from -1 down, and
/// written; the bytes are read from the last one written to the first.
pub open spec fn built(graph: Arena, root: usize, mode: BuildMode) -> Seq<u8> {
    let (t, registered) = reg(
        Tree { nodes: graph.nodes, kept: Set::<usize>::empty() },
        graph.strings,
        mode,
        root as int,
    );
    let zeros = no_numbers(t.nodes);
    let (m, _) = numbered(t.nodes, Marks { offs: zeros, firsts: zeros }, registered as int, -1i32);
    wrote(
        t.nodes,
        graph.strings,
        m.firsts,
        Out { offs: m.offs, bytes: Seq::<u8>::empty() },
        registered as int,
    ).bytes.reverse()
}

} // verus!
