//! The writing pass: every node is written in front of the nodes that it
//! leads to.

use vstd::prelude::*;
use crate::builder::finalized::{branch_ok, final_ok, lemma_branch_shape, plain};
use crate::builder::graph::starts_with;
use crate::builder::layout::{
    after_value, branch_encodes, lemma_tail_skip, lemma_tail_stable, list_encodes, start_encodes,
    tail,
};
use crate::builder::marks::{
    edge_reaches, lemma_reach_range, lemma_weight_list, lemma_weight_next, lemma_weight_split,
    marks_ok, node_ok, reach, right_range_ok, weight,
};
use crate::builder::node::{node_kids, node_labels, node_trie, Node};
use crate::builder::steps::{wrote, wrote_entries, wrote_lefts, wrote_unless};
use crate::builder::writer::BytesTrieWriter;
use crate::encoding::{
    encode_delta, encode_value, lemma_delta_round_trip, lemma_value_round_trip, MIN_LINEAR_MATCH,
};
use crate::model::{count_first, lemma_count_first_at_least};

verus! {

/// The node `x` is written `o` bytes before the end of `written`.
pub open spec fn node_at(
    nodes: Seq<Node>,
    strings: Seq<u8>,
    written: Seq<u8>,
    o: int,
    x: int,
) -> bool {
    &&& 0 < o <= written.len()
    &&& final_ok(nodes, strings, x) ==> start_encodes(tail(written, o), nodes, strings, x)
    &&& branch_ok(nodes, strings, x) ==> branch_encodes(tail(written, o), nodes, strings, x)
}

/// What holds at any time of the writing: the edge numbers `en` are in
/// order; a node has its edge number until it is written; a node that is
/// written lies at its offset; and all nodes under it are written.
#[verifier::opaque]
pub open spec fn written_ok(
    nodes: Seq<Node>,
    strings: Seq<u8>,
    offs: Seq<i32>,
    en: Seq<i32>,
    firsts: Seq<i32>,
    written: Seq<u8>,
) -> bool {
    &&& marks_ok(nodes, strings, en, firsts)
    &&& offs.len() == nodes.len()
    &&& written.len() <= i32::MAX
    &&& forall|x: int| 0 <= x < nodes.len() ==> #[trigger] offs[x] > 0 || offs[x] == en[x]
    &&& forall|x: int|
        0 <= x < nodes.len() && #[trigger] offs[x] > 0 ==> node_at(
            nodes,
            strings,
            written,
            offs[x] as int,
            x,
        )
    &&& forall|b: int, x: int|
        0 <= b < nodes.len() && offs[b] > 0 && #[trigger] reach(nodes, b, x) ==> offs[x] > 0
}

/// The most bytes that writing the node `i` adds.
pub open spec fn span(nodes: Seq<Node>, strings: Seq<u8>, i: int) -> int {
    if nodes[i] is ListBranch || nodes[i] is SplitBranch {
        20 * weight(nodes, strings, i) - 3 * node_labels(nodes, i).len() - 6
    } else if plain(nodes[i]) {
        20 * weight(nodes, strings, i) - 17
    } else {
        20 * weight(nodes, strings, i) - 12
    }
}

/// What writing the node `node` needs.
pub open spec fn write_pre(w: &BytesTrieWriter, en: Seq<i32>, node: int) -> bool {
    &&& written_ok(w.nodes(), w.strings(), w.offsets@, en, w.first_edges@, w.bytes@)
    &&& node_ok(w.nodes(), w.strings(), node)
    &&& en[node] != 0
    &&& w.bytes@.len() + 20 * weight(w.nodes(), w.strings(), node) <= i32::MAX
}

/// What a step of the writing keeps and does: it adds bytes, and every node
/// that was written before is still written.
pub open spec fn write_step(
    before: &BytesTrieWriter,
    after: &BytesTrieWriter,
    en: Seq<i32>,
) -> bool {
    &&& after.same_graph(before)
    &&& after.first_edges@ == before.first_edges@
    &&& after.offsets@.len() == after.nodes().len()
    &&& written_ok(
        after.nodes(),
        after.strings(),
        after.offsets@,
        en,
        after.first_edges@,
        after.bytes@,
    )
    &&& starts_with(after.bytes@, before.bytes@)
    &&& forall|x: int|
        0 <= x < after.nodes().len() && #[trigger] before.offsets@[x] > 0 ==> after.offsets@[x]
            > 0
}

/// What writing the node `node` has done: the node is written in front of
/// all bytes, with at most `span` bytes added.
pub open spec fn write_post(
    before: &BytesTrieWriter,
    after: &BytesTrieWriter,
    en: Seq<i32>,
    node: int,
) -> bool {
    &&& write_step(before, after, en)
    &&& after.offsets@[node] == after.bytes@.len()
    &&& after.offsets@[node] > 0
    &&& after.bytes@.len() <= before.bytes@.len() + span(before.nodes(), before.strings(), node)
}

/// Bytes that are written later leave every written node where it is.
pub proof fn lemma_written_grow(
    nodes: Seq<Node>,
    strings: Seq<u8>,
    offs: Seq<i32>,
    en: Seq<i32>,
    firsts: Seq<i32>,
    before: Seq<u8>,
    after: Seq<u8>,
)
    requires
        written_ok(nodes, strings, offs, en, firsts, before),
        starts_with(after, before),
        after.len() <= i32::MAX,
    ensures
        written_ok(nodes, strings, offs, en, firsts, after),
{
    reveal(written_ok);
    assert forall|x: int| 0 <= x < nodes.len() && #[trigger] offs[x] > 0 implies node_at(
        nodes,
        strings,
        after,
        offs[x] as int,
        x,
    ) by {
        assert(node_at(nodes, strings, before, offs[x] as int, x));
        lemma_tail_stable(before, after, offs[x] as int);
    }
}

/// What is known of one node while the graph is written: it has its edge
/// number, which is negative, or it is written and lies at its offset.
pub proof fn lemma_written_node(
    nodes: Seq<Node>,
    strings: Seq<u8>,
    offs: Seq<i32>,
    en: Seq<i32>,
    firsts: Seq<i32>,
    written: Seq<u8>,
    x: int,
)
    requires
        written_ok(nodes, strings, offs, en, firsts, written),
        0 <= x < nodes.len(),
    ensures
        offs.len() == nodes.len(),
        en.len() == nodes.len(),
        firsts.len() == nodes.len(),
        written.len() <= i32::MAX,
        offs[x] > 0 || offs[x] == en[x],
        en[x] <= 0,
        offs[x] > 0 ==> node_at(nodes, strings, written, offs[x] as int, x),
{
    reveal(written_ok);
    if en[x] != 0 {
        assert(en[x] < 0);
    }
}

/// Under a node that is written every node is written.
pub proof fn lemma_written_reach(
    nodes: Seq<Node>,
    strings: Seq<u8>,
    offs: Seq<i32>,
    en: Seq<i32>,
    firsts: Seq<i32>,
    written: Seq<u8>,
    b: int,
    x: int,
)
    requires
        written_ok(nodes, strings, offs, en, firsts, written),
        0 <= b < nodes.len(),
        offs[b] > 0,
        reach(nodes, b, x),
    ensures
        offs[x] > 0,
        0 <= x < nodes.len(),
{
    reveal(written_ok);
    lemma_reach_range(nodes, b, x);
}

/// The numbers under the rightmost edge of a numbered branch part are
/// known while the graph is written.
pub proof fn lemma_written_right(
    nodes: Seq<Node>,
    strings: Seq<u8>,
    offs: Seq<i32>,
    en: Seq<i32>,
    firsts: Seq<i32>,
    written: Seq<u8>,
    node: int,
)
    requires
        written_ok(nodes, strings, offs, en, firsts, written),
        0 <= node < nodes.len(),
        en[node] != 0,
    ensures
        right_range_ok(nodes, en, firsts, node),
{
    reveal(written_ok);
}

/// Every child of a node that is numbered is numbered.
pub proof fn lemma_child_numbered(
    nodes: Seq<Node>,
    strings: Seq<u8>,
    offs: Seq<i32>,
    en: Seq<i32>,
    firsts: Seq<i32>,
    written: Seq<u8>,
    node: int,
    child: int,
)
    requires
        written_ok(nodes, strings, offs, en, firsts, written),
        0 <= node < nodes.len(),
        en[node] != 0,
        0 <= child < node,
        match nodes[node] {
            Node::LinearMatch(n) => n.next == child,
            Node::IntermediateValue(n) => n.next == child,
            Node::BranchHead(n) => n.next == child,
            Node::SplitBranch(n) => n.less_than == child || n.greater_or_equal == child,
            Node::ListBranch(n) => exists|j: int|
                0 <= j < n.equal@.len() && match #[trigger] n.equal@[j] {
                    Some(c) => c == child,
                    None => false,
                },
            _ => false,
        },
    ensures
        reach(nodes, node, child),
        en[child] != 0,
{
    reveal(written_ok);
    assert(reach(nodes, child, child));
    match nodes[node] {
        Node::ListBranch(n) => {
            let j = choose|j: int|
                0 <= j < n.equal@.len() && match #[trigger] n.equal@[j] {
                    Some(c) => c == child,
                    None => false,
                };
            assert(edge_reaches(nodes, node, n.equal@[j], child));
        },
        _ => {},
    }
    assert(reach(nodes, node, child));
}

impl BytesTrieWriter {
    /// Notes that the node `node` is written in front of all bytes.
    fn finish(&mut self, node: usize, Ghost(en): Ghost<Seq<i32>>, Ghost(base): Ghost<Seq<u8>>)
        requires
            written_ok(
                old(self).nodes(),
                old(self).strings(),
                old(self).offsets@,
                en,
                old(self).first_edges@,
                base,
            ),
            starts_with(old(self).bytes@, base),
            old(self).bytes@.len() <= i32::MAX,
            node < old(self).nodes().len(),
            node_at(
                old(self).nodes(),
                old(self).strings(),
                old(self).bytes@,
                old(self).bytes@.len() as int,
                node as int,
            ),
            forall|x: int|
                x != node && #[trigger] reach(old(self).nodes(), node as int, x) ==> old(
                    self,
                ).offsets@[x] > 0,
        ensures
            final(self).same_graph(old(self)),
            final(self).first_edges@ == old(self).first_edges@,
            final(self).bytes@ == old(self).bytes@,
            final(self).offsets@ == old(self).offsets@.update(
                node as int,
                old(self).bytes@.len() as i32,
            ),
            final(self).offsets@.len() == final(self).nodes().len(),
            final(self).out() == old(self).out().done(node as int),
            final(self).offsets@[node as int] > 0,
            forall|x: int|
                0 <= x < old(self).nodes().len() && #[trigger] old(self).offsets@[x] > 0
                    ==> final(self).offsets@[x] > 0,
            written_ok(
                final(self).nodes(),
                final(self).strings(),
                final(self).offsets@,
                en,
                final(self).first_edges@,
                final(self).bytes@,
            ),
    {
        let ghost nodes = self.nodes();
        let ghost strings = self.strings();
        let ghost o0 = self.offsets@;
        proof {
            lemma_written_grow(nodes, strings, o0, en, self.first_edges@, base, self.bytes@);
            reveal(written_ok);
        }
        let length: usize = self.bytes.len();
        self.offsets[node] = length as i32;
        proof {
            let o1 = self.offsets@;
            assert forall|b: int, x: int|
                0 <= b < nodes.len() && o1[b] > 0 && #[trigger] reach(nodes, b, x) implies o1[x]
                > 0 by {
                lemma_reach_range(nodes, b, x);
                if b != node {
                    assert(o0[b] > 0);
                    assert(o0[x] > 0);
                } else if x != node {
                    assert(o0[x] > 0);
                }
            }
            assert forall|x: int| 0 <= x < nodes.len() && #[trigger] o1[x] > 0 implies node_at(
                nodes,
                strings,
                self.bytes@,
                o1[x] as int,
                x,
            ) by {
                if x != node {
                    assert(o0[x] > 0);
                }
            }
        }
    }

    /// Writes the node `node` with all nodes under it that it does not
    /// jump to, and before it the nodes that it jumps to unless they are
    /// written. Afterwards the offset of `node` is the number of bytes
    /// written.
    pub(crate) fn write(&mut self, node: usize, Ghost(en): Ghost<Seq<i32>>)
        requires
            write_pre(old(self), en, node as int),
        ensures
            write_post(old(self), final(self), en, node as int),
            final(self).out() == wrote(
                old(self).views(),
                old(self).strings(),
                old(self).first_edges@,
                old(self).out(),
                node as int,
            ),
        decreases node, 1int, 0int,
    {
        match &self.graph.nodes[node] {
            Node::FinalValue(n) => {
                let value: i32 = n.value;
                self.write_final_value(node, value, Ghost(en));
            },
            Node::IntermediateValue(n) => {
                let value: i32 = n.value;
                let next: usize = n.next;
                self.write_intermediate_value(node, value, next, Ghost(en));
            },
            Node::LinearMatch(n) => {
                let value: Option<i32> = n.value;
                let offset: usize = n.string_offset;
                let length: usize = n.length;
                let next: usize = n.next;
                self.write_linear_match(node, value, offset, length, next, Ghost(en));
            },
            Node::BranchHead(n) => {
                let value: Option<i32> = n.value;
                let length: usize = n.length;
                let next: usize = n.next;
                self.write_branch_head(node, value, length, next, Ghost(en));
            },
            Node::SplitBranch(n) => {
                let unit: u8 = n.unit;
                let less_than: usize = n.less_than;
                let greater_or_equal: usize = n.greater_or_equal;
                self.write_split_branch(node, unit, less_than, greater_or_equal, Ghost(en));
            },
            Node::ListBranch(_) => {
                self.write_list_branch(node, Ghost(en));
            },
            Node::DynamicBranch(_) => {},
        }
    }

    /// Writes the node `node` unless it is written, or will be written with
    /// the rightmost edge of the branch that asks: its edge number lies
    /// from `last_right` to `first_right`.
    pub(crate) fn write_unless_inside_right_edge(
        &mut self,
        node: usize,
        first_right: i32,
        last_right: i32,
        Ghost(en): Ghost<Seq<i32>>,
    )
        requires
            write_pre(old(self), en, node as int),
        ensures
            write_step(old(self), final(self), en),
            final(self).bytes@.len() <= old(self).bytes@.len() + span(
                old(self).nodes(),
                old(self).strings(),
                node as int,
            ),
            final(self).offsets@[node as int] > 0 || (last_right <= en[node as int]
                <= first_right),
            final(self).out() == wrote_unless(
                old(self).views(),
                old(self).strings(),
                old(self).first_edges@,
                old(self).out(),
                node as int,
                first_right,
                last_right,
            ),
        decreases node, 2int, 0int,
    {
        proof {
            lemma_span_positive(self.nodes(), self.strings(), node as int);
            lemma_written_node(
                self.nodes(),
                self.strings(),
                self.offsets@,
                en,
                self.first_edges@,
                self.bytes@,
                node as int,
            );
        }
        let offset: i32 = self.offsets[node];
        if offset < 0 && (offset < last_right || first_right < offset) {
            self.write(node, Ghost(en));
        }
    }

    /// Writes a final value.
    fn write_final_value(&mut self, node: usize, value: i32, Ghost(en): Ghost<Seq<i32>>)
        requires
            write_pre(old(self), en, node as int),
            old(self).nodes()[node as int] is FinalValue,
            old(self).nodes()[node as int]->FinalValue_0.value == value,
        ensures
            write_post(old(self), final(self), en, node as int),
            final(self).out() == wrote(
                old(self).views(),
                old(self).strings(),
                old(self).first_edges@,
                old(self).out(),
                node as int,
            ),
    {
        let ghost b0 = self.bytes@;
        let ghost nodes = self.nodes();
        let ghost strings = self.strings();
        proof {
            lemma_value_round_trip(value, true, self.trail());
            lemma_written_node(
                nodes,
                strings,
                self.offsets@,
                en,
                self.first_edges@,
                b0,
                node as int,
            );
            assert(node_trie(nodes, strings, node as int).count() == 1);
        }
        self.write_value_and_final(value, true);
        proof {
            assert(starts_with(self.trail(), encode_value(value, true)));
            assert(start_encodes(self.trail(), nodes, strings, node as int));
            assert(reach(nodes, node as int, node as int));
        }
        self.finish(node, Ghost(en), Ghost(b0));
    }

    /// Writes the node after an intermediate value, and the value in front.
    fn write_intermediate_value(
        &mut self,
        node: usize,
        value: i32,
        next: usize,
        Ghost(en): Ghost<Seq<i32>>,
    )
        requires
            write_pre(old(self), en, node as int),
            old(self).nodes()[node as int] is IntermediateValue,
            old(self).nodes()[node as int]->IntermediateValue_0.value == value,
            old(self).nodes()[node as int]->IntermediateValue_0.next == next,
        ensures
            write_post(old(self), final(self), en, node as int),
            final(self).out() == wrote(
                old(self).views(),
                old(self).strings(),
                old(self).first_edges@,
                old(self).out(),
                node as int,
            ),
        decreases node, 0int, 0int,
    {
        let ghost nodes = self.nodes();
        let ghost strings = self.strings();
        proof {
            lemma_weight_next(nodes, strings, node as int, next as int);
            lemma_child_numbered(
                nodes,
                strings,
                self.offsets@,
                en,
                self.first_edges@,
                self.bytes@,
                node as int,
                next as int,
            );
        }
        self.write(next, Ghost(en));
        let ghost b1 = self.bytes@;
        let ghost t1 = self.trail();
        let ghost o1 = self.offsets@;
        proof {
            lemma_value_round_trip(value, false, t1);
            lemma_written_node(nodes, strings, o1, en, self.first_edges@, b1, next as int);
        }
        self.write_value_and_final(value, false);
        proof {
            let t = self.trail();
            let e = encode_value(value, false);
            assert(t.skip(e.len() as int) =~= t1);
            assert(start_encodes(t, nodes, strings, node as int));
            assert forall|x: int| x != node && #[trigger] reach(nodes, node as int, x) implies o1[x]
                > 0 by {
                assert(reach(nodes, next as int, x));
                lemma_written_reach(nodes, strings, o1, en, self.first_edges@, b1, next as int, x);
            }
        }
        self.finish(node, Ghost(en), Ghost(b1));
    }

    /// Writes the node after a linear match, and in front of it the bytes
    /// of the match, the lead byte and the value.
    fn write_linear_match(
        &mut self,
        node: usize,
        value: Option<i32>,
        offset: usize,
        length: usize,
        next: usize,
        Ghost(en): Ghost<Seq<i32>>,
    )
        requires
            write_pre(old(self), en, node as int),
            old(self).nodes()[node as int] is LinearMatch,
            old(self).nodes()[node as int]->LinearMatch_0.value == value,
            old(self).nodes()[node as int]->LinearMatch_0.string_offset == offset,
            old(self).nodes()[node as int]->LinearMatch_0.length == length,
            old(self).nodes()[node as int]->LinearMatch_0.next == next,
        ensures
            write_post(old(self), final(self), en, node as int),
            final(self).out() == wrote(
                old(self).views(),
                old(self).strings(),
                old(self).first_edges@,
                old(self).out(),
                node as int,
            ),
        decreases node, 0int, 0int,
    {
        let ghost nodes = self.nodes();
        let ghost strings = self.strings();
        proof {
            lemma_weight_next(nodes, strings, node as int, next as int);
            lemma_child_numbered(
                nodes,
                strings,
                self.offsets@,
                en,
                self.first_edges@,
                self.bytes@,
                node as int,
                next as int,
            );
        }
        self.write(next, Ghost(en));
        let ghost b1 = self.bytes@;
        let ghost t1 = self.trail();
        let ghost o1 = self.offsets@;
        proof {
            lemma_written_node(nodes, strings, o1, en, self.first_edges@, b1, next as int);
        }
        self.write_offset_and_length(offset, length);
        let lead: u8 = MIN_LINEAR_MATCH + (length - 1) as u8;
        self.write_value_and_type(value, lead);
        proof {
            lemma_linear_layout(nodes, strings, node as int, self.trail(), t1);
            assert forall|x: int| x != node && #[trigger] reach(nodes, node as int, x) implies o1[x]
                > 0 by {
                assert(reach(nodes, next as int, x));
                lemma_written_reach(nodes, strings, o1, en, self.first_edges@, b1, next as int, x);
            }
        }
        self.finish(node, Ghost(en), Ghost(b1));
    }

    /// Writes the list and split nodes of a branch, and in front of them
    /// the head with the number of edges and the value.
    fn write_branch_head(
        &mut self,
        node: usize,
        value: Option<i32>,
        length: usize,
        next: usize,
        Ghost(en): Ghost<Seq<i32>>,
    )
        requires
            write_pre(old(self), en, node as int),
            old(self).nodes()[node as int] is BranchHead,
            old(self).nodes()[node as int]->BranchHead_0.value == value,
            old(self).nodes()[node as int]->BranchHead_0.length == length,
            old(self).nodes()[node as int]->BranchHead_0.next == next,
        ensures
            write_post(old(self), final(self), en, node as int),
            final(self).out() == wrote(
                old(self).views(),
                old(self).strings(),
                old(self).first_edges@,
                old(self).out(),
                node as int,
            ),
        decreases node, 0int, 0int,
    {
        let ghost nodes = self.nodes();
        let ghost strings = self.strings();
        proof {
            lemma_weight_next(nodes, strings, node as int, next as int);
            lemma_child_numbered(
                nodes,
                strings,
                self.offsets@,
                en,
                self.first_edges@,
                self.bytes@,
                node as int,
                next as int,
            );
            lemma_branch_shape(nodes, strings, next as int);
        }
        self.write(next, Ghost(en));
        let ghost b1 = self.bytes@;
        let ghost t1 = self.trail();
        let ghost o1 = self.offsets@;
        proof {
            lemma_written_node(nodes, strings, o1, en, self.first_edges@, b1, next as int);
        }
        if length <= MIN_LINEAR_MATCH as usize {
            let lead: u8 = (length - 1) as u8;
            self.write_value_and_type(value, lead);
        } else {
            let count: u8 = (length - 1) as u8;
            self.write_unit(count);
            self.write_value_and_type(value, 0);
            proof {
                let front = match value {
                    Some(v) => encode_value(v, false),
                    None => Seq::<u8>::empty(),
                };
                assert((front + seq![0u8]) + (seq![count] + t1) =~= front + seq![0u8, count] + t1);
            }
        }
        proof {
            lemma_head_layout(nodes, strings, node as int, self.trail(), t1);
            assert forall|x: int| x != node && #[trigger] reach(nodes, node as int, x) implies o1[x]
                > 0 by {
                assert(reach(nodes, next as int, x));
                lemma_written_reach(nodes, strings, o1, en, self.first_edges@, b1, next as int, x);
            }
        }
        self.finish(node, Ghost(en), Ghost(b1));
    }

    /// Writes the two parts of a split, the part with the smaller bytes
    /// first, and in front of them the byte of the split and the jump to the
    /// part with the smaller bytes.
    fn write_split_branch(
        &mut self,
        node: usize,
        unit: u8,
        less_than: usize,
        greater_or_equal: usize,
        Ghost(en): Ghost<Seq<i32>>,
    )
        requires
            write_pre(old(self), en, node as int),
            old(self).nodes()[node as int] is SplitBranch,
            old(self).nodes()[node as int]->SplitBranch_0.unit == unit,
            old(self).nodes()[node as int]->SplitBranch_0.less_than == less_than,
            old(self).nodes()[node as int]->SplitBranch_0.greater_or_equal == greater_or_equal,
        ensures
            write_post(old(self), final(self), en, node as int),
            final(self).out() == wrote(
                old(self).views(),
                old(self).strings(),
                old(self).first_edges@,
                old(self).out(),
                node as int,
            ),
        decreases node, 0int, 0int,
    {
        let ghost nodes = self.nodes();
        let ghost strings = self.strings();
        let ghost firsts = self.first_edges@;
        let ghost o0 = self.offsets@;
        let ghost b0 = self.bytes@;
        let ghost lt = less_than as int;
        let ghost ge = greater_or_equal as int;
        proof {
            lemma_weight_split(nodes, strings, node as int);
            lemma_child_numbered(nodes, strings, o0, en, firsts, b0, node as int, lt);
            lemma_child_numbered(nodes, strings, o0, en, firsts, b0, node as int, ge);
            lemma_branch_shape(nodes, strings, lt);
            lemma_branch_shape(nodes, strings, ge);
            lemma_written_right(nodes, strings, o0, en, firsts, b0, node as int);
            lemma_written_node(nodes, strings, o0, en, firsts, b0, ge);
            lemma_written_node(nodes, strings, o0, en, firsts, b0, lt);
            lemma_written_node(nodes, strings, o0, en, firsts, b0, node as int);
        }
        let first: i32 = self.first_edges[node];
        let right_number: i32 = self.offsets[greater_or_equal];
        // The part with the smaller bytes first, as it is jumped to.
        self.write_unless_inside_right_edge(less_than, first, right_number, Ghost(en));
        let ghost o1 = self.offsets@;
        // The other part last, as it is not jumped to at all.
        self.write(greater_or_equal, Ghost(en));
        let ghost b2 = self.bytes@;
        let ghost t2 = self.trail();
        let ghost o2 = self.offsets@;
        proof {
            if o1[lt] > 0 {
                assert(o2[lt] > 0);
            } else {
                // It was left to the rightmost edge, which has written it.
                assert(reach(nodes, ge, lt));
                lemma_written_reach(nodes, strings, o2, en, firsts, b2, ge, lt);
            }
            lemma_written_node(nodes, strings, o2, en, firsts, b2, lt);
            lemma_written_node(nodes, strings, o2, en, firsts, b2, ge);
        }
        let target: i32 = self.offsets[less_than];
        let ghost delta = (b2.len() - target) as i32;
        self.write_delta_to(target);
        self.write_unit(unit);
        proof {
            lemma_tail_skip(b2, b2.len() as int, target as int);
            lemma_split_layout(nodes, strings, node as int, self.trail(), t2, delta);
            assert forall|x: int| x != node && #[trigger] reach(nodes, node as int, x) implies o2[x]
                > 0 by {
                if reach(nodes, lt, x) {
                    lemma_written_reach(nodes, strings, o2, en, firsts, b2, lt, x);
                } else {
                    assert(reach(nodes, ge, x));
                    lemma_written_reach(nodes, strings, o2, en, firsts, b2, ge, x);
                }
            }
            assert(node_labels(nodes, node as int).len() == node_labels(nodes, lt).len()
                + node_labels(nodes, ge).len());
        }
        self.finish(node, Ghost(en), Ghost(b2));
    }

    /// The byte of the edge `j` of the list node `node`.
    fn list_unit(&self, node: usize, j: usize) -> (r: u8)
        requires
            node < self.nodes().len(),
            self.nodes()[node as int] is ListBranch,
            j < self.nodes()[node as int]->ListBranch_0.units@.len(),
        ensures
            r == self.nodes()[node as int]->ListBranch_0.units@[j as int],
    {
        match &self.graph.nodes[node] {
            Node::ListBranch(n) => n.units[j],
            _ => 0,
        }
    }

    /// The final value of the edge `j` of the list node `node`.
    fn list_value(&self, node: usize, j: usize) -> (r: i32)
        requires
            node < self.nodes().len(),
            self.nodes()[node as int] is ListBranch,
            j < self.nodes()[node as int]->ListBranch_0.values@.len(),
        ensures
            r == self.nodes()[node as int]->ListBranch_0.values@[j as int],
    {
        match &self.graph.nodes[node] {
            Node::ListBranch(n) => n.values[j],
            _ => 0,
        }
    }

    /// Writes the nodes that a list jumps to, from right to left, unless
    /// they are written or will be written with the rightmost edge.
    fn write_left_edges(
        &mut self,
        node: usize,
        count: usize,
        first: i32,
        right_number: i32,
        Ghost(en): Ghost<Seq<i32>>,
    )
        requires
            written_ok(
                old(self).nodes(),
                old(self).strings(),
                old(self).offsets@,
                en,
                old(self).first_edges@,
                old(self).bytes@,
            ),
            node < old(self).nodes().len(),
            branch_ok(old(self).nodes(), old(self).strings(), node as int),
            old(self).nodes()[node as int] is ListBranch,
            count == old(self).nodes()[node as int]->ListBranch_0.equal@.len(),
            en[node as int] != 0,
            old(self).bytes@.len() + 20 * count_first(
                node_kids(old(self).nodes(), old(self).strings(), node as int),
                count - 1,
            ) <= i32::MAX,
        ensures
            write_step(old(self), final(self), en),
            final(self).bytes@.len() <= old(self).bytes@.len() + 20 * count_first(
                node_kids(old(self).nodes(), old(self).strings(), node as int),
                count - 1,
            ) - 12 * (count - 1),
            forall|j: int|
                0 <= j < count - 1 ==> match #[trigger] old(
                    self,
                ).nodes()[node as int]->ListBranch_0.equal@[j] {
                    Some(c) => final(self).offsets@[c as int] > 0 || (right_number <= en[c as int]
                        <= first),
                    None => true,
                },
            final(self).out() == wrote_lefts(
                old(self).views(),
                old(self).strings(),
                old(self).first_edges@,
                old(self).out(),
                node as int,
                count - 1,
                first,
                right_number,
            ),
        decreases node, 0int, 1int,
    {
        let ghost nodes = self.nodes();
        let ghost strings = self.strings();
        let ghost firsts = self.first_edges@;
        let ghost equal = nodes[node as int]->ListBranch_0.equal@;
        let ghost kids = node_kids(nodes, strings, node as int);
        let ghost len0 = self.bytes@.len();
        proof {
            lemma_weight_list(nodes, strings, node as int);
            lemma_written_node(
                nodes,
                strings,
                self.offsets@,
                en,
                firsts,
                self.bytes@,
                node as int,
            );
        }
        let mut i: usize = count - 1;
        while i > 0
            invariant
                0 <= i <= count - 1,
                count == equal.len(),
                node < nodes.len(),
                en.len() == nodes.len(),
                nodes == self.nodes(),
                strings == self.strings(),
                firsts == self.first_edges@,
                nodes[node as int] is ListBranch,
                equal == nodes[node as int]->ListBranch_0.equal@,
                kids == node_kids(nodes, strings, node as int),
                kids.len() == count,
                branch_ok(nodes, strings, node as int),
                en[node as int] != 0,
                len0 == old(self).bytes@.len(),
                len0 + 20 * count_first(kids, count - 1) <= i32::MAX,
                forall|j: int|
                    0 <= j < count ==> #[trigger] kids[j].count() == match equal[j] {
                        Some(c) => weight(nodes, strings, c as int),
                        None => 1,
                    },
                write_step(old(self), self, en),
                wrote_lefts(
                    self.views(),
                    strings,
                    firsts,
                    self.out(),
                    node as int,
                    i as int,
                    first,
                    right_number,
                ) == wrote_lefts(
                    old(self).views(),
                    old(self).strings(),
                    old(self).first_edges@,
                    old(self).out(),
                    node as int,
                    count - 1,
                    first,
                    right_number,
                ),
                self.bytes@.len() <= len0 + 20 * (count_first(kids, count - 1) - count_first(
                    kids,
                    i as int,
                )) - 12 * (count - 1 - i),
                forall|j: int|
                    i <= j < count - 1 ==> match #[trigger] equal[j] {
                        Some(c) => self.offsets@[c as int] > 0 || (right_number <= en[c as int]
                            <= first),
                        None => true,
                    },
            decreases i,
        {
            i = i - 1;
            proof {
                assert(count_first(kids, i + 1) == count_first(kids, i as int) + kids[i as int].count());
                lemma_count_first_at_least(kids, i as int);
            }
            let ghost o1 = self.offsets@;
            match self.list_edge(node, i) {
                Some(c) => {
                    proof {
                        assert(equal[i as int] == Some(c));
                        assert(kids[i as int].count() == weight(nodes, strings, c as int));
                        lemma_child_numbered(
                            nodes,
                            strings,
                            o1,
                            en,
                            firsts,
                            self.bytes@,
                            node as int,
                            c as int,
                        );
                        assert(final_ok(nodes, strings, c as int));
                    }
                    self.write_unless_inside_right_edge(c, first, right_number, Ghost(en));
                    proof {
                        let o2 = self.offsets@;
                        assert forall|j: int| i <= j < count - 1 implies match #[trigger] equal[j] {
                            Some(d) => o2[d as int] > 0 || (right_number <= en[d as int] <= first),
                            None => true,
                        } by {
                            match equal[j] {
                                Some(d) => {
                                    if j > i && o1[d as int] > 0 {
                                        assert(o2[d as int] > 0);
                                    }
                                },
                                None => {},
                            }
                        }
                    }
                },
                None => {
                    proof {
                        assert(equal[i as int].is_none());
                    }
                },
            }
        }
        proof {
            assert(count_first(kids, 0) == 0);
        }
    }

    /// Writes the bytes of the edges of a list, but for the last one, from
    /// right to left. Each byte is followed by the final value of its edge,
    /// or by the jump to the node of its edge, which is written.
    fn write_list_entries(
        &mut self,
        node: usize,
        count: usize,
        Ghost(en): Ghost<Seq<i32>>,
        Ghost(base): Ghost<Seq<u8>>,
    )
        requires
            written_ok(
                old(self).nodes(),
                old(self).strings(),
                old(self).offsets@,
                en,
                old(self).first_edges@,
                base,
            ),
            starts_with(old(self).bytes@, base),
            node < old(self).nodes().len(),
            branch_ok(old(self).nodes(), old(self).strings(), node as int),
            old(self).nodes()[node as int] is ListBranch,
            count == old(self).nodes()[node as int]->ListBranch_0.equal@.len(),
            forall|j: int|
                0 <= j < count - 1 ==> match #[trigger] old(
                    self,
                ).nodes()[node as int]->ListBranch_0.equal@[j] {
                    Some(c) => old(self).offsets@[c as int] > 0,
                    None => true,
                },
            list_encodes(
                old(self).trail(),
                old(self).nodes(),
                old(self).strings(),
                node as int,
                count - 1,
            ),
            old(self).bytes@.len() + 6 * (count - 1) <= i32::MAX,
        ensures
            final(self).same_graph(old(self)),
            final(self).offsets@ == old(self).offsets@,
            final(self).first_edges@ == old(self).first_edges@,
            starts_with(final(self).bytes@, old(self).bytes@),
            final(self).bytes@.len() <= old(self).bytes@.len() + 6 * (count - 1),
            list_encodes(
                final(self).trail(),
                final(self).nodes(),
                final(self).strings(),
                node as int,
                0,
            ),
            final(self).out() == wrote_entries(
                old(self).nodes()[node as int]->ListBranch_0.units@,
                old(self).nodes()[node as int]->ListBranch_0.equal@,
                old(self).nodes()[node as int]->ListBranch_0.values@,
                old(self).out(),
                count - 1,
            ),
    {
        let ghost nodes = self.nodes();
        let ghost strings = self.strings();
        let ghost offs = self.offsets@;
        let ghost firsts = self.first_edges@;
        let ghost equal = nodes[node as int]->ListBranch_0.equal@;
        let ghost len0 = self.bytes@.len();
        let mut i: usize = count - 1;
        while i > 0
            invariant
                0 <= i <= count - 1,
                count == equal.len(),
                node < nodes.len(),
                nodes == self.nodes(),
                strings == self.strings(),
                self.same_graph(old(self)),
                self.offsets@ == offs,
                offs == old(self).offsets@,
                self.first_edges@ == firsts,
                firsts == old(self).first_edges@,
                nodes[node as int] is ListBranch,
                equal == nodes[node as int]->ListBranch_0.equal@,
                branch_ok(nodes, strings, node as int),
                written_ok(nodes, strings, offs, en, firsts, base),
                starts_with(self.bytes@, base),
                starts_with(self.bytes@, old(self).bytes@),
                len0 == old(self).bytes@.len(),
                len0 + 6 * (count - 1) <= i32::MAX,
                self.bytes@.len() <= len0 + 6 * (count - 1 - i),
                forall|j: int|
                    0 <= j < count - 1 ==> match #[trigger] equal[j] {
                        Some(c) => offs[c as int] > 0,
                        None => true,
                    },
                list_encodes(self.trail(), nodes, strings, node as int, i as int),
                wrote_entries(
                    nodes[node as int]->ListBranch_0.units@,
                    equal,
                    nodes[node as int]->ListBranch_0.values@,
                    self.out(),
                    i as int,
                ) == wrote_entries(
                    nodes[node as int]->ListBranch_0.units@,
                    equal,
                    nodes[node as int]->ListBranch_0.values@,
                    old(self).out(),
                    count - 1,
                ),
            decreases i,
        {
            i = i - 1;
            let ghost t = self.trail();
            let ghost b1 = self.bytes@;
            let unit: u8 = self.list_unit(node, i);
            match self.list_edge(node, i) {
                Some(c) => {
                    proof {
                        assert(equal[i as int] == Some(c));
                        assert(offs[c as int] > 0);
                        lemma_written_node(nodes, strings, offs, en, firsts, base, c as int);
                        assert(final_ok(nodes, strings, c as int));
                    }
                    let target: i32 = self.offsets[c];
                    let value: i32 = self.bytes.len() as i32 - target;
                    proof {
                        lemma_tail_skip(b1, b1.len() as int, target as int);
                        lemma_tail_stable(base, b1, target as int);
                    }
                    self.write_value_and_final(value, false);
                    self.write_unit(unit);
                    proof {
                        lemma_entry_layout(
                            nodes,
                            strings,
                            node as int,
                            i as int,
                            self.trail(),
                            t,
                            value,
                        );
                    }
                },
                None => {
                    let value: i32 = self.list_value(node, i);
                    proof {
                        assert(equal[i as int].is_none());
                    }
                    self.write_value_and_final(value, true);
                    self.write_unit(unit);
                    proof {
                        lemma_entry_layout(
                            nodes,
                            strings,
                            node as int,
                            i as int,
                            self.trail(),
                            t,
                            value,
                        );
                    }
                },
            }
        }
    }

    /// Writes a list node: the nodes that it jumps to, the node of its
    /// rightmost edge, to which it leads without a jump, and in front of
    /// them its edges.
    fn write_list_branch(&mut self, node: usize, Ghost(en): Ghost<Seq<i32>>)
        requires
            write_pre(old(self), en, node as int),
            old(self).nodes()[node as int] is ListBranch,
        ensures
            write_post(old(self), final(self), en, node as int),
            final(self).out() == wrote(
                old(self).views(),
                old(self).strings(),
                old(self).first_edges@,
                old(self).out(),
                node as int,
            ),
        decreases node, 0int, 2int,
    {
        let ghost nodes = self.nodes();
        let ghost strings = self.strings();
        let ghost firsts = self.first_edges@;
        let ghost o0 = self.offsets@;
        let ghost b0 = self.bytes@;
        let ghost len0 = self.bytes@.len();
        let ghost equal = nodes[node as int]->ListBranch_0.equal@;
        let ghost kids = node_kids(nodes, strings, node as int);
        let count: usize = self.list_len(node);
        proof {
            lemma_weight_list(nodes, strings, node as int);
            assert(count_first(kids, count as int) == count_first(kids, count - 1) + kids[count
                - 1].count());
            lemma_count_first_at_least(kids, count - 1);
            lemma_written_right(nodes, strings, o0, en, firsts, b0, node as int);
            lemma_written_node(nodes, strings, o0, en, firsts, b0, node as int);
        }
        let first: i32 = self.first_edges[node];
        let right: Option<usize> = self.list_edge(node, count - 1);
        let right_number: i32 = match right {
            Some(rc) => {
                proof {
                    assert(equal[count - 1] == Some(rc));
                    lemma_written_node(nodes, strings, o0, en, firsts, b0, rc as int);
                }
                self.offsets[rc]
            },
            None => first,
        };
        // The nodes that are jumped to come first.
        self.write_left_edges(node, count, first, right_number, Ghost(en));
        let ghost o1 = self.offsets@;
        let ghost b1 = self.bytes@;
        // The node of the greatest byte comes last, as it is not jumped to.
        match right {
            Some(rc) => {
                proof {
                    lemma_child_numbered(nodes, strings, o1, en, firsts, b1, node as int, rc as int);
                    assert(final_ok(nodes, strings, rc as int));
                }
                self.write(rc, Ghost(en));
            },
            None => {
                let value: i32 = self.list_value(node, count - 1);
                self.write_value_and_final(value, true);
            },
        }
        let ghost o2 = self.offsets@;
        let ghost b2 = self.bytes@;
        let ghost t2 = self.trail();
        let ghost base = if right.is_some() {
            b2
        } else {
            b1
        };
        proof {
            assert forall|j: int| 0 <= j < count - 1 implies match #[trigger] equal[j] {
                Some(c) => o2[c as int] > 0,
                None => true,
            } by {
                match equal[j] {
                    Some(c) => {
                        assert(c < node);
                        if o1[c as int] > 0 {
                            assert(o2[c as int] > 0);
                        } else {
                            assert(right_number <= en[c as int] <= first);
                            lemma_written_node(nodes, strings, o1, en, firsts, b1, c as int);
                            match right {
                                Some(rc) => {
                                    assert(reach(nodes, rc as int, c as int));
                                    lemma_written_reach(
                                        nodes,
                                        strings,
                                        o2,
                                        en,
                                        firsts,
                                        b2,
                                        rc as int,
                                        c as int,
                                    );
                                },
                                None => {},
                            }
                        }
                    },
                    None => {},
                }
            }
        }
        let unit: u8 = self.list_unit(node, count - 1);
        self.write_unit(unit);
        proof {
            let t3 = self.trail();
            assert(t3.skip(1) =~= t2);
            match right {
                Some(rc) => {
                    lemma_written_node(nodes, strings, o2, en, firsts, b2, rc as int);
                },
                None => {},
            }
            assert(list_encodes(t3, nodes, strings, node as int, count - 1));
        }
        self.write_list_entries(node, count, Ghost(en), Ghost(base));
        proof {
            assert forall|x: int| x != node && #[trigger] reach(nodes, node as int, x) implies o2[x]
                > 0 by {
                let j = choose|j: int|
                    0 <= j < equal.len() && edge_reaches(nodes, node as int, #[trigger] equal[j], x);
                match equal[j] {
                    Some(d) => {
                        assert(reach(nodes, d as int, x));
                        match right {
                            Some(rc) => {
                                lemma_written_reach(nodes, strings, o2, en, firsts, b2, d as int, x);
                            },
                            None => {
                                lemma_written_reach(nodes, strings, o2, en, firsts, b1, d as int, x);
                            },
                        }
                    },
                    None => {},
                }
            }
            lemma_branch_shape(nodes, strings, node as int);
        }
        self.finish(node, Ghost(en), Ghost(base));
    }
}

/// A linear match lies in front of the node that it leads to: its value
/// where it has one, its lead byte, and its bytes.
pub proof fn lemma_linear_layout(
    nodes: Seq<Node>,
    strings: Seq<u8>,
    node: int,
    t: Seq<u8>,
    t1: Seq<u8>,
)
    requires
        0 <= node < nodes.len(),
        nodes[node] is LinearMatch,
        nodes[node]->LinearMatch_0.next < node,
        1 <= nodes[node]->LinearMatch_0.length <= 16,
        nodes[node]->LinearMatch_0.string_offset + nodes[node]->LinearMatch_0.length
            <= strings.len(),
        start_encodes(t1, nodes, strings, nodes[node]->LinearMatch_0.next as int),
        t == (match nodes[node]->LinearMatch_0.value {
            Some(v) => encode_value(v, false),
            None => Seq::<u8>::empty(),
        } + seq![(MIN_LINEAR_MATCH + nodes[node]->LinearMatch_0.length - 1) as u8]) + (
        strings.subrange(
            nodes[node]->LinearMatch_0.string_offset as int,
            nodes[node]->LinearMatch_0.string_offset + nodes[node]->LinearMatch_0.length,
        ) + t1),
    ensures
        start_encodes(t, nodes, strings, node),
{
    let n = nodes[node]->LinearMatch_0;
    let lead = (MIN_LINEAR_MATCH + n.length - 1) as u8;
    let matched = strings.subrange(n.string_offset as int, n.string_offset + n.length);
    let u = after_value(t, n.value);
    assert(u =~= seq![lead] + (matched + t1));
    assert(u.subrange(1, 1 + n.length) =~= matched);
    assert(u.skip(1 + n.length) =~= t1);
}

/// A split lies in front of its part with the greater bytes: its byte and
/// the jump over that part to the part with the smaller bytes.
pub proof fn lemma_split_layout(
    nodes: Seq<Node>,
    strings: Seq<u8>,
    node: int,
    t: Seq<u8>,
    t2: Seq<u8>,
    delta: i32,
)
    requires
        0 <= node < nodes.len(),
        nodes[node] is SplitBranch,
        nodes[node]->SplitBranch_0.less_than < node,
        nodes[node]->SplitBranch_0.greater_or_equal < node,
        0 <= delta <= t2.len(),
        branch_encodes(t2, nodes, strings, nodes[node]->SplitBranch_0.greater_or_equal as int),
        branch_encodes(
            t2.skip(delta as int),
            nodes,
            strings,
            nodes[node]->SplitBranch_0.less_than as int,
        ),
        t == seq![nodes[node]->SplitBranch_0.unit] + (encode_delta(delta) + t2),
    ensures
        branch_encodes(t, nodes, strings, node),
{
    let e = encode_delta(delta);
    let w = e.len() as int;
    lemma_delta_round_trip(delta, t2);
    assert(t.skip(1) =~= e + t2);
    assert(t[1] == e[0]);
    assert(t.skip(1 + w) =~= t2);
    assert(t.skip(1 + w + delta) =~= t2.skip(delta as int));
}

/// An edge of a list but the last lies in front of the edges after it:
/// its byte, and its final value or the jump to its node.
pub proof fn lemma_entry_layout(
    nodes: Seq<Node>,
    strings: Seq<u8>,
    node: int,
    j: int,
    t: Seq<u8>,
    t1: Seq<u8>,
    value: i32,
)
    requires
        0 <= node < nodes.len(),
        nodes[node] is ListBranch,
        0 <= j < nodes[node]->ListBranch_0.units@.len() - 1,
        list_encodes(t1, nodes, strings, node, j + 1),
        match nodes[node]->ListBranch_0.equal@[j] {
            Some(c) => {
                &&& c < node
                &&& 0 <= value <= t1.len()
                &&& start_encodes(t1.skip(value as int), nodes, strings, c as int)
                &&& t == seq![nodes[node]->ListBranch_0.units@[j]] + (encode_value(value, false)
                    + t1)
            },
            None => {
                &&& value == nodes[node]->ListBranch_0.values@[j]
                &&& t == seq![nodes[node]->ListBranch_0.units@[j]] + (encode_value(value, true)
                    + t1)
            },
        },
    ensures
        list_encodes(t, nodes, strings, node, j),
{
    let is_final = nodes[node]->ListBranch_0.equal@[j].is_none();
    let e = encode_value(value, is_final);
    let w = e.len() as int;
    lemma_value_round_trip(value, is_final, t1);
    assert(t.skip(1) =~= e + t1);
    assert(t[1] == e[0]);
    assert(t.skip(1 + w) =~= t1);
    if !is_final {
        assert(t.skip(1 + w + value) =~= t1.skip(value as int));
    }
}

/// A branch head lies in front of its list and split nodes: its value
/// where it has one, and the number of its edges in one byte or two.
pub proof fn lemma_head_layout(
    nodes: Seq<Node>,
    strings: Seq<u8>,
    node: int,
    t: Seq<u8>,
    t1: Seq<u8>,
)
    requires
        0 <= node < nodes.len(),
        nodes[node] is BranchHead,
        nodes[node]->BranchHead_0.next < node,
        1 <= nodes[node]->BranchHead_0.length <= 256,
        branch_encodes(t1, nodes, strings, nodes[node]->BranchHead_0.next as int),
        t == match nodes[node]->BranchHead_0.value {
            Some(v) => encode_value(v, false),
            None => Seq::<u8>::empty(),
        } + if nodes[node]->BranchHead_0.length <= MIN_LINEAR_MATCH {
            seq![(nodes[node]->BranchHead_0.length - 1) as u8]
        } else {
            seq![0u8, (nodes[node]->BranchHead_0.length - 1) as u8]
        } + t1,
    ensures
        start_encodes(t, nodes, strings, node),
{
    let n = nodes[node]->BranchHead_0;
    let front = match n.value {
        Some(v) => encode_value(v, false),
        None => Seq::<u8>::empty(),
    };
    let u = after_value(t, n.value);
    if n.length <= MIN_LINEAR_MATCH {
        let lead = (n.length - 1) as u8;
        assert(u =~= seq![lead] + t1);
        assert(u.skip(1) =~= t1);
    } else {
        let count = (n.length - 1) as u8;
        assert(u =~= seq![0u8, count] + t1);
        assert(u.skip(2) =~= t1);
    }
}

/// Writing a node adds bytes only.
pub proof fn lemma_span_positive(nodes: Seq<Node>, strings: Seq<u8>, i: int)
    requires
        node_ok(nodes, strings, i),
    ensures
        span(nodes, strings, i) >= 0,
{
    if final_ok(nodes, strings, i) {
        assert(node_trie(nodes, strings, i).count() >= 1);
    } else {
        lemma_branch_shape(nodes, strings, i);
        let kids = node_kids(nodes, strings, i);
        lemma_count_first_at_least(kids, kids.len() as int);
    }
}

} // verus!
