//! Edge numbers: which nodes a branch can leave to its rightmost edge.
//!
//! The rightmost edge of a branch is written without a jump, directly in
//! front of the branch, whether or not it has been written elsewhere. An
//! edge further left that can be reached through the rightmost edge need not
//! be written before it: writing the rightmost edge writes it too.
//!
//! To find those edges, every node gets a negative edge number before
//! anything is written. The numbers go down from -1. A branch numbers its
//! rightmost edge first and keeps the number that it started with. The nodes
//! that were numbered through the rightmost edge are then those with a
//! number between that of the rightmost edge and the first number of the
//! branch.

use vstd::prelude::*;
use crate::builder::finalized::{branch_ok, final_ok, lemma_branch_shape, lemma_list_kids};
use crate::builder::node::{node_kids, node_trie, Node};
use crate::builder::steps::{numbered, numbered_lefts, numbered_through, Marks};
use crate::builder::writer::BytesTrieWriter;
use crate::model::{
    count_all, count_first, lemma_count_concat, lemma_count_first_at_least, lemma_count_positive,
    lemma_lin_count,
};

verus! {

/// The edge `edge` of the node `r` leads to a node from which `x` is
/// reached.
pub open spec fn edge_reaches(nodes: Seq<Node>, r: int, edge: Option<usize>, x: int) -> bool
    decreases r, 0int,
{
    match edge {
        Some(c) => c < r && reach(nodes, c as int, x),
        None => false,
    }
}

/// The node `x` is the node `r` or is reached from it.
pub open spec fn reach(nodes: Seq<Node>, r: int, x: int) -> bool
    decreases r, 1int,
{
    0 <= r < nodes.len() && (x == r || match nodes[r] {
        Node::LinearMatch(n) => n.next < r && reach(nodes, n.next as int, x),
        Node::IntermediateValue(n) => n.next < r && reach(nodes, n.next as int, x),
        Node::BranchHead(n) => n.next < r && reach(nodes, n.next as int, x),
        Node::SplitBranch(n) => (n.less_than < r && reach(nodes, n.less_than as int, x)) || (
        n.greater_or_equal < r && reach(nodes, n.greater_or_equal as int, x)),
        Node::ListBranch(n) => exists|j: int|
            0 <= j < n.equal@.len() && edge_reaches(nodes, r, #[trigger] n.equal@[j], x),
        _ => false,
    })
}

/// The node `i` is ready to be written, as a node at which reading starts
/// or as a part of a branch.
pub open spec fn node_ok(nodes: Seq<Node>, strings: Seq<u8>, i: int) -> bool {
    final_ok(nodes, strings, i) || branch_ok(nodes, strings, i)
}

/// The number of trie nodes that the node `i` stands for: those of its
/// trie, or for a part of a branch those under its edges.
pub open spec fn weight(nodes: Seq<Node>, strings: Seq<u8>, i: int) -> nat {
    if 0 <= i < nodes.len() && (nodes[i] is ListBranch || nodes[i] is SplitBranch) {
        count_all(node_kids(nodes, strings, i))
    } else {
        node_trie(nodes, strings, i).count()
    }
}

/// The nodes reached through the rightmost edge of the branch part `b` are
/// known by their numbers: an edge further left whose number lies between
/// that of the rightmost edge and the first number of `b` is reached
/// through the rightmost edge.
pub open spec fn right_range_ok(nodes: Seq<Node>, offs: Seq<i32>, firsts: Seq<i32>, b: int) -> bool {
    match nodes[b] {
        Node::ListBranch(n) => {
            let right = n.equal@[n.equal@.len() - 1];
            let q = match right {
                Some(rc) => offs[rc as int],
                None => firsts[b],
            };
            forall|j: int|
                0 <= j < n.equal@.len() - 1 ==> match #[trigger] n.equal@[j] {
                    Some(c) => !(q <= offs[c as int] <= firsts[b]) || match right {
                        Some(rc) => reach(nodes, rc as int, c as int),
                        None => false,
                    },
                    None => true,
                }
        },
        Node::SplitBranch(n) => !(offs[n.greater_or_equal as int] <= offs[n.less_than as int]
            <= firsts[b]) || reach(nodes, n.greater_or_equal as int, n.less_than as int),
        _ => true,
    }
}

/// What holds of the edge numbers `offs` at any time of the numbering:
/// numbers are negative, a numbered node is ready to be written and has
/// only numbered nodes under it,
/// and the numbers under the rightmost edge of every numbered branch part
/// are as `right_range_ok` says.
pub open spec fn marks_ok(
    nodes: Seq<Node>,
    strings: Seq<u8>,
    offs: Seq<i32>,
    firsts: Seq<i32>,
) -> bool {
    &&& offs.len() == nodes.len()
    &&& firsts.len() == nodes.len()
    &&& forall|b: int|
        0 <= b < nodes.len() && #[trigger] offs[b] != 0 ==> offs[b] < 0 && node_ok(
            nodes,
            strings,
            b,
        ) && right_range_ok(nodes, offs, firsts, b)
    &&& forall|b: int, x: int|
        0 <= b < nodes.len() && offs[b] != 0 && #[trigger] reach(nodes, b, x) ==> offs[x] != 0
}

/// A node that is reached lies in the arena, at or before the node it is
/// reached from.
pub proof fn lemma_reach_range(nodes: Seq<Node>, r: int, x: int)
    requires
        reach(nodes, r, x),
    ensures
        0 <= x <= r < nodes.len(),
    decreases r,
{
    if x != r {
        match nodes[r] {
            Node::LinearMatch(n) => {
                lemma_reach_range(nodes, n.next as int, x);
            },
            Node::IntermediateValue(n) => {
                lemma_reach_range(nodes, n.next as int, x);
            },
            Node::BranchHead(n) => {
                lemma_reach_range(nodes, n.next as int, x);
            },
            Node::SplitBranch(n) => {
                if n.less_than < r && reach(nodes, n.less_than as int, x) {
                    lemma_reach_range(nodes, n.less_than as int, x);
                } else {
                    lemma_reach_range(nodes, n.greater_or_equal as int, x);
                }
            },
            Node::ListBranch(n) => {
                let j = choose|j: int|
                    0 <= j < n.equal@.len() && edge_reaches(nodes, r, #[trigger] n.equal@[j], x);
                match n.equal@[j] {
                    Some(c) => {
                        lemma_reach_range(nodes, c as int, x);
                    },
                    None => {},
                }
            },
            _ => {},
        }
    }
}

/// Numbering one more node, whose nodes below are numbered, keeps the edge
/// numbers in order, where the new node itself is in order.
pub proof fn lemma_marks_update(
    nodes: Seq<Node>,
    strings: Seq<u8>,
    offs: Seq<i32>,
    firsts: Seq<i32>,
    node: int,
    e: i32,
    f: i32,
)
    requires
        marks_ok(nodes, strings, offs, firsts),
        0 <= node < nodes.len(),
        node_ok(nodes, strings, node),
        offs[node] == 0,
        e < 0,
        forall|x: int|
            0 <= x < nodes.len() && x != node && #[trigger] reach(nodes, node, x) ==> offs[x]
                != 0,
        right_range_ok(nodes, offs.update(node, e), firsts.update(node, f), node),
    ensures
        marks_ok(nodes, strings, offs.update(node, e), firsts.update(node, f)),
{
    let offs2 = offs.update(node, e);
    let firsts2 = firsts.update(node, f);
    assert forall|b: int| 0 <= b < nodes.len() && #[trigger] offs2[b] != 0 implies offs2[b] < 0
        && node_ok(nodes, strings, b) && right_range_ok(nodes, offs2, firsts2, b) by {
        if b != node {
            assert(offs[b] != 0);
            assert(right_range_ok(nodes, offs, firsts, b));
            assert(node_ok(nodes, strings, b));
            match nodes[b] {
                Node::ListBranch(n) => {
                    let k = n.equal@.len() as int;
                    assert forall|j: int| 0 <= j < k implies match #[trigger] n.equal@[j] {
                        Some(c) => c != node,
                        None => true,
                    } by {
                        match n.equal@[j] {
                            Some(c) => {
                                assert(c < b);
                                assert(reach(nodes, c as int, c as int));
                                assert(edge_reaches(nodes, b, n.equal@[j], c as int));
                                assert(reach(nodes, b, c as int));
                            },
                            None => {},
                        }
                    }
                    assert(right_range_ok(nodes, offs2, firsts2, b));
                },
                Node::SplitBranch(n) => {
                    assert(reach(nodes, n.less_than as int, n.less_than as int));
                    assert(reach(nodes, b, n.less_than as int));
                    assert(reach(nodes, n.greater_or_equal as int, n.greater_or_equal as int));
                    assert(reach(nodes, b, n.greater_or_equal as int));
                    assert(right_range_ok(nodes, offs2, firsts2, b));
                },
                _ => {},
            }
        }
    }
    assert forall|b: int, x: int|
        0 <= b < nodes.len() && offs2[b] != 0 && #[trigger] reach(nodes, b, x) implies offs2[x]
        != 0 by {
        lemma_reach_range(nodes, b, x);
        if b != node {
            assert(offs[x] != 0);
        }
    }
}

/// What numbering from the node `node` on with the number `e` needs: the
/// numbers so far are in order and all above `e`, and `e` leaves room for
/// the numbers of the nodes under `node`.
pub open spec fn mark_pre(
    nodes: Seq<Node>,
    strings: Seq<u8>,
    offs: Seq<i32>,
    firsts: Seq<i32>,
    node: int,
    e: i32,
) -> bool {
    &&& marks_ok(nodes, strings, offs, firsts)
    &&& node_ok(nodes, strings, node)
    &&& e < 0
    &&& forall|x: int| 0 <= x < nodes.len() && #[trigger] offs[x] != 0 ==> offs[x] > e
    &&& e - 2 * weight(nodes, strings, node) >= i32::MIN
}

/// What numbering from the node `node` on with the number `e` has done
/// when it returns `r`: `node` is numbered, the nodes that were numbered
/// before are as they were, and the nodes that are numbered now are reached
/// from `node` and have numbers from `r` to `e`.
pub open spec fn mark_post(
    nodes: Seq<Node>,
    strings: Seq<u8>,
    offs0: Seq<i32>,
    firsts0: Seq<i32>,
    offs: Seq<i32>,
    firsts: Seq<i32>,
    node: int,
    e: i32,
    r: i32,
) -> bool {
    &&& marks_ok(nodes, strings, offs, firsts)
    &&& r <= e
    &&& r >= e - (2 * weight(nodes, strings, node) - 2)
    &&& offs[node] != 0
    &&& offs0[node] == 0 ==> offs[node] == r
    &&& offs0[node] != 0 ==> r == e
    &&& forall|x: int|
        #![trigger offs[x]]
        #![trigger offs0[x]]
        0 <= x < nodes.len() && offs0[x] != 0 ==> offs[x] == offs0[x] && firsts[x] == firsts0[x]
    &&& forall|x: int|
        #![trigger offs[x]]
        0 <= x < nodes.len() && offs0[x] == 0 && offs[x] != 0 ==> r <= offs[x] <= e && reach(
            nodes,
            node,
            x,
        )
}

/// A node that leads on to one node has the trie nodes of that node at
/// least.
pub proof fn lemma_weight_next(nodes: Seq<Node>, strings: Seq<u8>, node: int, next: int)
    requires
        final_ok(nodes, strings, node),
        match nodes[node] {
            Node::LinearMatch(n) => n.next == next,
            Node::IntermediateValue(n) => n.next == next,
            Node::BranchHead(n) => n.next == next,
            _ => false,
        },
    ensures
        node_ok(nodes, strings, next),
        weight(nodes, strings, next) <= weight(nodes, strings, node),
        weight(nodes, strings, node) >= 1,
        nodes[node] is LinearMatch ==> weight(nodes, strings, next) + nodes[node]->LinearMatch_0.length
            == weight(nodes, strings, node),
        nodes[node] is BranchHead ==> weight(nodes, strings, next) + 1 == weight(
            nodes,
            strings,
            node,
        ),
        nodes[node] is IntermediateValue ==> weight(nodes, strings, next) == weight(
            nodes,
            strings,
            node,
        ),
{
    lemma_count_positive(node_trie(nodes, strings, node));
    match nodes[node] {
        Node::LinearMatch(n) => {
            let bytes = strings.subrange(n.string_offset as int, n.string_offset + n.length);
            lemma_lin_count(n.value, bytes, node_trie(nodes, strings, next));
            assert(final_ok(nodes, strings, next));
            assert(!(nodes[next] is ListBranch) && !(nodes[next] is SplitBranch));
        },
        Node::IntermediateValue(n) => {
            assert(final_ok(nodes, strings, next));
            assert(!(nodes[next] is ListBranch) && !(nodes[next] is SplitBranch));
            assert(node_trie(nodes, strings, node).kids == node_trie(nodes, strings, next).kids);
        },
        Node::BranchHead(n) => {
            assert(branch_ok(nodes, strings, next));
            assert(nodes[next] is ListBranch || nodes[next] is SplitBranch);
            assert(node_trie(nodes, strings, node).kids == node_kids(nodes, strings, next));
        },
        _ => {},
    }
}

/// The trie nodes under a split are those under its two parts.
pub proof fn lemma_weight_split(nodes: Seq<Node>, strings: Seq<u8>, node: int)
    requires
        branch_ok(nodes, strings, node),
        nodes[node] is SplitBranch,
    ensures
        weight(nodes, strings, node) == weight(
            nodes,
            strings,
            nodes[node]->SplitBranch_0.less_than as int,
        ) + weight(nodes, strings, nodes[node]->SplitBranch_0.greater_or_equal as int),
        weight(nodes, strings, nodes[node]->SplitBranch_0.less_than as int) >= 2,
        weight(nodes, strings, nodes[node]->SplitBranch_0.greater_or_equal as int) >= 2,
{
    let n = nodes[node]->SplitBranch_0;
    let a = node_kids(nodes, strings, n.less_than as int);
    let b = node_kids(nodes, strings, n.greater_or_equal as int);
    lemma_count_concat(a, b, b.len() as int);
    lemma_branch_shape(nodes, strings, n.less_than as int);
    lemma_branch_shape(nodes, strings, n.greater_or_equal as int);
    lemma_count_first_at_least(a, a.len() as int);
    lemma_count_first_at_least(b, b.len() as int);
}

/// The tries under the edges of a list: that of the node where the edge
/// leads to one, and else a single node.
pub proof fn lemma_weight_list(nodes: Seq<Node>, strings: Seq<u8>, node: int)
    requires
        branch_ok(nodes, strings, node),
        nodes[node] is ListBranch,
    ensures
        node_kids(nodes, strings, node).len() == nodes[node]->ListBranch_0.equal@.len(),
        forall|j: int|
            0 <= j < nodes[node]->ListBranch_0.equal@.len() ==> #[trigger] node_kids(
                nodes,
                strings,
                node,
            )[j].count() == match nodes[node]->ListBranch_0.equal@[j] {
                Some(c) => weight(nodes, strings, c as int),
                None => 1,
            },
{
    let n = nodes[node]->ListBranch_0;
    lemma_list_kids(nodes, strings, node, n.equal@, n.values@, n.equal@.len() as int);
    assert forall|j: int| 0 <= j < n.equal@.len() implies #[trigger] node_kids(
        nodes,
        strings,
        node,
    )[j].count() == match n.equal@[j] {
        Some(c) => weight(nodes, strings, c as int),
        None => 1,
    } by {
        match n.equal@[j] {
            Some(c) => {
                assert(final_ok(nodes, strings, c as int));
            },
            None => {},
        }
    }
}

impl BytesTrieWriter {
    /// The node that the edge `j` of the list node `node` leads to.
    pub fn list_edge(&self, node: usize, j: usize) -> (r: Option<usize>)
        requires
            node < self.nodes().len(),
            self.nodes()[node as int] is ListBranch,
            j < self.nodes()[node as int]->ListBranch_0.equal@.len(),
        ensures
            r == self.nodes()[node as int]->ListBranch_0.equal@[j as int],
    {
        match &self.graph.nodes[node] {
            Node::ListBranch(n) => n.equal[j],
            _ => None,
        }
    }

    /// The number of edges of the list node `node`.
    pub fn list_len(&self, node: usize) -> (r: usize)
        requires
            node < self.nodes().len(),
            self.nodes()[node as int] is ListBranch,
        ensures
            r == self.nodes()[node as int]->ListBranch_0.equal@.len(),
    {
        match &self.graph.nodes[node] {
            Node::ListBranch(n) => n.equal.len(),
            _ => 0,
        }
    }

    /// Numbers the node `node` and the nodes under it that have no number
    /// yet, rightmost edges first, from `edge_number` down. Returns the
    /// last number given, which is the number of `node`; or `edge_number`
    /// where `node` had a number already.
    pub fn mark_right_edges_first(&mut self, node: usize, edge_number: i32) -> (r: i32)
        requires
            mark_pre(
                old(self).nodes(),
                old(self).strings(),
                old(self).offsets@,
                old(self).first_edges@,
                node as int,
                edge_number,
            ),
        ensures
            final(self).same_graph(old(self)),
            final(self).bytes@ == old(self).bytes@,
            mark_post(
                old(self).nodes(),
                old(self).strings(),
                old(self).offsets@,
                old(self).first_edges@,
                final(self).offsets@,
                final(self).first_edges@,
                node as int,
                edge_number,
                r,
            ),
            (final(self).marks(), r) == numbered(
                old(self).views(),
                old(self).marks(),
                node as int,
                edge_number,
            ),
        decreases node, 1int,
    {
        proof {
            if final_ok(self.nodes(), self.strings(), node as int) {
                lemma_count_positive(node_trie(self.nodes(), self.strings(), node as int));
            } else {
                lemma_branch_shape(self.nodes(), self.strings(), node as int);
                let kids = node_kids(self.nodes(), self.strings(), node as int);
                lemma_count_first_at_least(kids, kids.len() as int);
            }
        }
        if self.offsets[node] != 0 {
            return edge_number;
        }
        match &self.graph.nodes[node] {
            Node::FinalValue(_) => {
                self.set_number(node, edge_number, edge_number);
                edge_number
            },
            Node::LinearMatch(n) => {
                let next: usize = n.next;
                self.mark_through(node, next, edge_number)
            },
            Node::IntermediateValue(n) => {
                let next: usize = n.next;
                self.mark_through(node, next, edge_number)
            },
            Node::BranchHead(n) => {
                let next: usize = n.next;
                self.mark_through(node, next, edge_number)
            },
            Node::SplitBranch(n) => {
                let less_than: usize = n.less_than;
                let greater_or_equal: usize = n.greater_or_equal;
                self.mark_split(node, less_than, greater_or_equal, edge_number)
            },
            Node::ListBranch(_) => self.mark_list(node, edge_number),
            Node::DynamicBranch(_) => edge_number,
        }
    }

    /// Gives the node `node`, under which all nodes are numbered, the
    /// number `number`, and keeps `first` as the number that it started
    /// with.
    fn set_number(&mut self, node: usize, first: i32, number: i32)
        requires
            marks_ok(
                old(self).nodes(),
                old(self).strings(),
                old(self).offsets@,
                old(self).first_edges@,
            ),
            node_ok(old(self).nodes(), old(self).strings(), node as int),
            old(self).offsets@[node as int] == 0,
            number < 0,
            forall|x: int|
                0 <= x < old(self).nodes().len() && x != node && #[trigger] reach(
                    old(self).nodes(),
                    node as int,
                    x,
                ) ==> old(self).offsets@[x] != 0,
            right_range_ok(
                old(self).nodes(),
                old(self).offsets@.update(node as int, number),
                old(self).first_edges@.update(node as int, first),
                node as int,
            ),
        ensures
            final(self).same_graph(old(self)),
            final(self).bytes@ == old(self).bytes@,
            final(self).offsets@ == old(self).offsets@.update(node as int, number),
            final(self).first_edges@ == old(self).first_edges@.update(node as int, first),
            marks_ok(
                final(self).nodes(),
                final(self).strings(),
                final(self).offsets@,
                final(self).first_edges@,
            ),
    {
        proof {
            lemma_marks_update(
                self.nodes(),
                self.strings(),
                self.offsets@,
                self.first_edges@,
                node as int,
                number,
                first,
            );
        }
        self.first_edges[node] = first;
        self.offsets[node] = number;
    }

    /// Numbers a node that leads on to the one node `next`.
    fn mark_through(&mut self, node: usize, next: usize, edge_number: i32) -> (r: i32)
        requires
            mark_pre(
                old(self).nodes(),
                old(self).strings(),
                old(self).offsets@,
                old(self).first_edges@,
                node as int,
                edge_number,
            ),
            old(self).offsets@[node as int] == 0,
            match old(self).nodes()[node as int] {
                Node::LinearMatch(n) => n.next == next,
                Node::IntermediateValue(n) => n.next == next,
                Node::BranchHead(n) => n.next == next,
                _ => false,
            },
        ensures
            final(self).same_graph(old(self)),
            final(self).bytes@ == old(self).bytes@,
            mark_post(
                old(self).nodes(),
                old(self).strings(),
                old(self).offsets@,
                old(self).first_edges@,
                final(self).offsets@,
                final(self).first_edges@,
                node as int,
                edge_number,
                r,
            ),
            (final(self).marks(), r) == numbered(
                old(self).views(),
                old(self).marks(),
                node as int,
                edge_number,
            ),
        decreases node, 0int,
    {
        let ghost nodes = self.nodes();
        let ghost strings = self.strings();
        let ghost o0 = self.offsets@;
        proof {
            lemma_weight_next(nodes, strings, node as int, next as int);
        }
        let e: i32 = self.mark_right_edges_first(next, edge_number);
        let ghost o1 = self.offsets@;
        proof {
            assert(o1[node as int] == 0) by {
                if o1[node as int] != 0 {
                    lemma_reach_range(nodes, next as int, node as int);
                }
            }
            assert forall|x: int|
                0 <= x < nodes.len() && x != node && #[trigger] reach(
                    nodes,
                    node as int,
                    x,
                ) implies o1[x] != 0 by {
                assert(reach(nodes, next as int, x));
            }
        }
        self.set_number(node, edge_number, e);
        proof {
            let o2 = self.offsets@;
            assert forall|x: int|
                #![trigger o2[x]]
                0 <= x < nodes.len() && o0[x] == 0 && o2[x] != 0 implies e <= o2[x] <= edge_number
                && reach(nodes, node as int, x) by {
                if x != node {
                    assert(o1[x] == o2[x]);
                    assert(reach(nodes, next as int, x));
                }
            }
            let views = old(self).views();
            let m0 = old(self).marks();
            assert(views[node as int] == nodes[node as int]@);
            assert(next < node);
            assert(numbered(views, m0, node as int, edge_number) == numbered_through(
                views,
                m0,
                node as int,
                next,
                edge_number,
            ));
        }
        e
    }

    /// Numbers a split node: first the part with the greater bytes, to
    /// which the split leads without a jump.
    fn mark_split(
        &mut self,
        node: usize,
        less_than: usize,
        greater_or_equal: usize,
        edge_number: i32,
    ) -> (r: i32)
        requires
            mark_pre(
                old(self).nodes(),
                old(self).strings(),
                old(self).offsets@,
                old(self).first_edges@,
                node as int,
                edge_number,
            ),
            old(self).offsets@[node as int] == 0,
            old(self).nodes()[node as int] is SplitBranch,
            old(self).nodes()[node as int]->SplitBranch_0.less_than == less_than,
            old(self).nodes()[node as int]->SplitBranch_0.greater_or_equal == greater_or_equal,
        ensures
            final(self).same_graph(old(self)),
            final(self).bytes@ == old(self).bytes@,
            mark_post(
                old(self).nodes(),
                old(self).strings(),
                old(self).offsets@,
                old(self).first_edges@,
                final(self).offsets@,
                final(self).first_edges@,
                node as int,
                edge_number,
                r,
            ),
            (final(self).marks(), r) == numbered(
                old(self).views(),
                old(self).marks(),
                node as int,
                edge_number,
            ),
        decreases node, 0int,
    {
        let ghost nodes = self.nodes();
        let ghost strings = self.strings();
        let ghost o0 = self.offsets@;
        let ghost f0 = self.first_edges@;
        proof {
            lemma_weight_split(nodes, strings, node as int);
        }
        let e1: i32 = self.mark_right_edges_first(greater_or_equal, edge_number);
        let ghost o1 = self.offsets@;
        let e2: i32 = self.mark_right_edges_first(less_than, e1 - 1);
        let ghost o2 = self.offsets@;
        proof {
            assert(o2[node as int] == 0) by {
                if o1[node as int] != 0 {
                    lemma_reach_range(nodes, greater_or_equal as int, node as int);
                }
                if o2[node as int] != 0 {
                    lemma_reach_range(nodes, less_than as int, node as int);
                }
            }
            assert forall|x: int|
                0 <= x < nodes.len() && x != node && #[trigger] reach(
                    nodes,
                    node as int,
                    x,
                ) implies o2[x] != 0 by {
                if !reach(nodes, less_than as int, x) {
                    assert(reach(nodes, greater_or_equal as int, x));
                    assert(o1[x] != 0);
                }
            }
            let o3 = o2.update(node as int, e2);
            let f3 = self.first_edges@.update(node as int, edge_number);
            assert(right_range_ok(nodes, o3, f3, node as int)) by {
                let lt = less_than as int;
                let ge = greater_or_equal as int;
                assert(o3[lt] == o2[lt] && o3[ge] == o2[ge]);
                if o0[lt] != 0 {
                    assert(o2[lt] == o1[lt]);
                    assert(o1[lt] == o0[lt]);
                } else if o1[lt] != 0 {
                    assert(reach(nodes, ge, lt));
                } else {
                    assert(o2[lt] <= e1 - 1);
                    if o0[ge] == 0 {
                        assert(o2[ge] == o1[ge]);
                    } else {
                        assert(o2[ge] == o1[ge]);
                        assert(o1[ge] == o0[ge]);
                    }
                }
            }
        }
        self.set_number(node, edge_number, e2);
        proof {
            let o3 = self.offsets@;
            assert forall|x: int|
                #![trigger o3[x]]
                0 <= x < nodes.len() && o0[x] == 0 && o3[x] != 0 implies e2 <= o3[x]
                <= edge_number && reach(nodes, node as int, x) by {
                if x != node {
                    assert(o2[x] == o3[x]);
                    if o1[x] != 0 {
                        assert(o2[x] == o1[x]);
                        assert(reach(nodes, greater_or_equal as int, x));
                    } else {
                        assert(reach(nodes, less_than as int, x));
                    }
                }
            }
            assert forall|x: int|
                #![trigger o3[x]]
                #![trigger o0[x]]
                0 <= x < nodes.len() && o0[x] != 0 implies o3[x] == o0[x]
                && self.first_edges@[x] == f0[x] by {
                assert(o1[x] == o0[x]);
                assert(o2[x] == o1[x]);
            }
        }
        e2
    }

    /// Numbers a list node: first the edge of the greatest byte, to which
    /// the list leads without a jump, and the other edges from right to
    /// left.
    fn mark_list(&mut self, node: usize, edge_number: i32) -> (r: i32)
        requires
            mark_pre(
                old(self).nodes(),
                old(self).strings(),
                old(self).offsets@,
                old(self).first_edges@,
                node as int,
                edge_number,
            ),
            old(self).offsets@[node as int] == 0,
            old(self).nodes()[node as int] is ListBranch,
        ensures
            final(self).same_graph(old(self)),
            final(self).bytes@ == old(self).bytes@,
            mark_post(
                old(self).nodes(),
                old(self).strings(),
                old(self).offsets@,
                old(self).first_edges@,
                final(self).offsets@,
                final(self).first_edges@,
                node as int,
                edge_number,
                r,
            ),
            (final(self).marks(), r) == numbered(
                old(self).views(),
                old(self).marks(),
                node as int,
                edge_number,
            ),
        decreases node, 0int,
    {
        let ghost nodes = self.nodes();
        let ghost strings = self.strings();
        let ghost o0 = self.offsets@;
        let ghost f0 = self.first_edges@;
        let ghost equal = nodes[node as int]->ListBranch_0.equal@;
        let ghost kids = node_kids(nodes, strings, node as int);
        let count: usize = self.list_len(node);
        proof {
            lemma_weight_list(nodes, strings, node as int);
            assert(count_first(kids, count as int) == count_first(kids, count - 1) + kids[count
                - 1].count());
            lemma_count_first_at_least(kids, count - 1);
        }
        let right: Option<usize> = self.list_edge(node, count - 1);
        let mut e: i32 = edge_number;
        match right {
            Some(c) => {
                e = self.mark_right_edges_first(c, e);
            },
            None => {},
        }
        let ghost o1 = self.offsets@;
        let ghost f1 = self.first_edges@;
        let e_right: i32 = e;
        proof {
            match right {
                Some(rc) => {
                    if o1[node as int] != 0 {
                        lemma_reach_range(nodes, rc as int, node as int);
                    }
                },
                None => {},
            }
        }
        let mut i: usize = count - 1;
        while i > 0
            invariant
                0 <= i <= count - 1,
                f0.len() == nodes.len(),
                count == equal.len(),
                count >= 2,
                node < nodes.len(),
                nodes == self.nodes(),
                strings == self.strings(),
                self.same_graph(old(self)),
                self.bytes@ == old(self).bytes@,
                nodes[node as int] is ListBranch,
                equal == nodes[node as int]->ListBranch_0.equal@,
                kids == node_kids(nodes, strings, node as int),
                kids.len() == count,
                branch_ok(nodes, strings, node as int),
                forall|j: int|
                    0 <= j < count ==> #[trigger] kids[j].count() == match equal[j] {
                        Some(c) => weight(nodes, strings, c as int),
                        None => 1,
                    },
                marks_ok(nodes, strings, self.offsets@, self.first_edges@),
                o0.len() == nodes.len(),
                o1.len() == nodes.len(),
                o0[node as int] == 0,
                self.offsets@[node as int] == 0,
                edge_number < 0,
                e <= e_right <= edge_number,
                right == equal[count - 1],
                edge_number - 2 * count_first(kids, count as int) >= i32::MIN,
                e_right >= edge_number - 2 * kids[count - 1].count() + 2,
                e >= e_right - 2 * (count_first(kids, count - 1) - count_first(kids, i as int)),
                count_first(kids, i as int) >= 0,
                forall|x: int|
                    #![trigger o0[x]]
                    0 <= x < nodes.len() && o0[x] != 0 ==> o0[x] > edge_number,
                forall|x: int|
                    #![trigger self.offsets@[x]]
                    #![trigger o0[x]]
                    0 <= x < nodes.len() && o0[x] != 0 ==> self.offsets@[x] == o0[x]
                        && self.first_edges@[x] == f0[x],
                forall|x: int|
                    #![trigger self.offsets@[x]]
                    #![trigger o1[x]]
                    0 <= x < nodes.len() && o1[x] != 0 ==> self.offsets@[x] == o1[x],
                forall|x: int|
                    #![trigger o1[x]]
                    0 <= x < nodes.len() && o0[x] == 0 && o1[x] != 0 ==> e_right <= o1[x]
                        <= edge_number && match right {
                        Some(rc) => reach(nodes, rc as int, x),
                        None => false,
                    },
                match right {
                    Some(rc) => o1[rc as int] != 0 && (o0[rc as int] == 0 ==> o1[rc as int]
                        == e_right) && (o0[rc as int] != 0 ==> e_right == edge_number),
                    None => e_right == edge_number,
                },
                forall|x: int|
                    #![trigger self.offsets@[x]]
                    0 <= x < nodes.len() && o1[x] == 0 && self.offsets@[x] != 0 ==> e
                        <= self.offsets@[x] <= e_right - 1 && reach(nodes, node as int, x),
                forall|j: int|
                    i <= j < count - 1 ==> match #[trigger] equal[j] {
                        Some(c) => self.offsets@[c as int] != 0,
                        None => true,
                    },
                numbered_lefts(self.views(), self.marks(), node as int, i as int, e)
                    == numbered_lefts(
                    self.views(),
                    Marks { offs: o1, firsts: f1 },
                    node as int,
                    count - 1,
                    e_right,
                ),
            decreases i,
        {
            i = i - 1;
            proof {
                assert(count_first(kids, i + 1) == count_first(kids, i as int) + kids[i as int].count());
                lemma_count_first_at_least(kids, i as int);
            }
            let ghost o2 = self.offsets@;
            match self.list_edge(node, i) {
                Some(c) => {
                    proof {
                        assert(equal[i as int] == Some(c));
                        assert(kids[i as int].count() == weight(nodes, strings, c as int));
                        assert forall|x: int|
                            0 <= x < nodes.len() && #[trigger] o2[x] != 0 implies o2[x] > e - 1 by {
                            if o0[x] != 0 {
                                assert(o2[x] == o0[x]);
                            } else if o1[x] != 0 {
                                assert(o2[x] == o1[x]);
                            }
                        }
                    }
                    let before: i32 = e;
                    e = self.mark_right_edges_first(c, e - 1);
                    proof {
                        let o3 = self.offsets@;
                        assert forall|x: int|
                            #![trigger o3[x]]
                            0 <= x < nodes.len() && o1[x] == 0 && o3[x] != 0 implies e <= o3[x]
                            <= e_right - 1 && reach(nodes, node as int, x) by {
                            if o2[x] != 0 {
                                assert(o3[x] == o2[x]);
                            } else {
                                assert(reach(nodes, c as int, x));
                                assert(edge_reaches(nodes, node as int, equal[i as int], x));
                                assert(reach(nodes, node as int, x));
                            }
                        }
                        assert(o3[node as int] == 0) by {
                            if o3[node as int] != 0 {
                                lemma_reach_range(nodes, c as int, node as int);
                            }
                        }
                        assert forall|j: int| i <= j < count - 1 implies match #[trigger] equal[j] {
                            Some(d) => o3[d as int] != 0,
                            None => true,
                        } by {
                            match equal[j] {
                                Some(d) => {
                                    if j > i {
                                        assert(o2[d as int] != 0);
                                        assert(o3[d as int] == o2[d as int]);
                                    }
                                },
                                None => {},
                            }
                        }
                    }
                },
                None => {
                    proof {
                        assert(equal[i as int].is_none());
                    }
                },
            }
        }
        let ghost o3 = self.offsets@;
        proof {
            assert(count_first(kids, 0) == 0);
            assert forall|x: int|
                0 <= x < nodes.len() && x != node && #[trigger] reach(
                    nodes,
                    node as int,
                    x,
                ) implies o3[x] != 0 by {
                let j = choose|j: int|
                    0 <= j < equal.len() && edge_reaches(nodes, node as int, #[trigger] equal[j], x);
                match equal[j] {
                    Some(d) => {
                        if j == count - 1 {
                            assert(o1[d as int] != 0);
                            assert(o3[d as int] == o1[d as int]);
                        }
                        assert(o3[d as int] != 0);
                        assert(reach(nodes, d as int, x));
                    },
                    None => {},
                }
            }
            let o4 = o3.update(node as int, e);
            let f4 = self.first_edges@.update(node as int, edge_number);
            assert(right_range_ok(nodes, o4, f4, node as int)) by {
                let q = match right {
                    Some(rc) => o4[rc as int],
                    None => f4[node as int],
                };
                assert forall|j: int| 0 <= j < count - 1 implies match #[trigger] equal[j] {
                    Some(d) => !(q <= o4[d as int] <= f4[node as int]) || match right {
                        Some(rc) => reach(nodes, rc as int, d as int),
                        None => false,
                    },
                    None => true,
                } by {
                    match equal[j] {
                        Some(d) => {
                            assert(d < node);
                            assert(o4[d as int] == o3[d as int]);
                            assert(o3[d as int] != 0);
                            if o0[d as int] != 0 {
                                assert(o3[d as int] == o0[d as int]);
                            } else if o1[d as int] != 0 {
                                assert(o3[d as int] == o1[d as int]);
                            } else {
                                assert(o3[d as int] <= e_right - 1);
                                match right {
                                    Some(rc) => {
                                        assert(equal[count - 1] == Some(rc));
                                        assert(rc < node);
                                        assert(o4[rc as int] == o3[rc as int]);
                                        assert(o3[rc as int] == o1[rc as int]);
                                        if o0[rc as int] != 0 {
                                            assert(o1[rc as int] == o0[rc as int]);
                                        }
                                    },
                                    None => {},
                                }
                            }
                        },
                        None => {},
                    }
                }
            }
        }
        self.set_number(node, edge_number, e);
        proof {
            let o5 = self.offsets@;
            assert forall|x: int|
                #![trigger o5[x]]
                0 <= x < nodes.len() && o0[x] == 0 && o5[x] != 0 implies e <= o5[x] <= edge_number
                && reach(nodes, node as int, x) by {
                if x != node {
                    assert(o5[x] == o3[x]);
                    if o1[x] != 0 {
                        assert(o3[x] == o1[x]);
                        match right {
                            Some(rc) => {
                                assert(equal[count - 1] == Some(rc));
                                assert(reach(nodes, rc as int, x));
                                assert(edge_reaches(nodes, node as int, equal[count - 1], x));
                            },
                            None => {},
                        }
                    }
                }
            }
            assert forall|x: int|
                #![trigger o5[x]]
                #![trigger o0[x]]
                0 <= x < nodes.len() && o0[x] != 0 implies o5[x] == o0[x]
                && self.first_edges@[x] == f0[x] by {
                assert(o3[x] == o0[x]);
            }
        }
        e
    }
}

} // verus!
