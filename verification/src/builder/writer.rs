//! The writer: the node graph with the numbers of its nodes and the bytes
//! written so far.

use vstd::prelude::*;
use crate::builder::graph::{starts_with, NodeGraph};
use crate::builder::layout::{lemma_tail_push, tail};
use crate::builder::arena::arena_view;
use crate::builder::node::{Node, NodeView};
use crate::builder::steps::{value_and_type, Marks, Out};
use crate::encoding::{encode_delta, encode_value, CompactDelta, CompactValue};

verus! {

/// The node graph while it is written. The bytes are collected from the
/// end of the trie to its start: the last byte of the trie is written
/// first.
pub struct BytesTrieWriter {
    pub graph: NodeGraph,
    pub root: usize,
    /// For each node 0, or its negative edge number, or once it is written
    /// the number of bytes from the start of the node to the end of the trie.
    pub offsets: Vec<i32>,
    /// For each list and split node the edge number that it started with.
    pub first_edges: Vec<i32>,
    /// The bytes written so far, in the order in which they were written.
    pub bytes: Vec<u8>,
}

impl BytesTrieWriter {
    /// The nodes of the graph.
    pub open spec fn nodes(&self) -> Seq<Node> {
        self.graph.nodes@
    }

    /// The key arena of the graph.
    pub open spec fn strings(&self) -> Seq<u8> {
        self.graph.strings@
    }

    /// The graph and the root are those of `before`.
    pub open spec fn same_graph(&self, before: &BytesTrieWriter) -> bool {
        &&& self.graph.nodes@ == before.graph.nodes@
        &&& self.graph.strings@ == before.graph.strings@
        &&& self.root == before.root
    }

    /// The nodes of the graph as values.
    pub open spec fn views(&self) -> Seq<NodeView> {
        arena_view(self.graph.nodes@)
    }

    /// The numbers of the nodes.
    pub open spec fn marks(&self) -> Marks {
        Marks { offs: self.offsets@, firsts: self.first_edges@ }
    }

    /// What is written.
    pub open spec fn out(&self) -> Out {
        Out { offs: self.offsets@, bytes: self.bytes@ }
    }

    /// All bytes written so far, in the order of the trie.
    pub open spec fn trail(&self) -> Seq<u8> {
        tail(self.bytes@, self.bytes@.len() as int)
    }

    /// The bytes `front` were written since `before`, to stand in this
    /// order in front of what was written before; nothing else has changed.
    pub open spec fn appended(&self, before: &BytesTrieWriter, front: Seq<u8>) -> bool {
        &&& self.same_graph(before)
        &&& self.offsets@ == before.offsets@
        &&& self.first_edges@ == before.first_edges@
        &&& starts_with(self.bytes@, before.bytes@)
        &&& self.bytes@.len() == before.bytes@.len() + front.len()
        &&& self.trail() == front + before.trail()
        &&& self.out() == before.out().put(front)
    }

    /// Writes one byte. Returns the number of bytes written so far.
    pub fn write_unit(&mut self, unit: u8) -> (r: usize)
        ensures
            final(self).appended(old(self), seq![unit]),
            r == final(self).bytes@.len(),
    {
        proof {
            lemma_tail_push(self.bytes@, unit);
            assert(self.bytes@.push(unit) =~= self.bytes@ + seq![unit].reverse());
        }
        self.bytes.push(unit);
        self.bytes.len()
    }

    /// Writes `bytes`, to be read in this order. Returns the number of
    /// bytes written so far.
    pub fn write_bytes(&mut self, bytes: &[u8]) -> (r: usize)
        ensures
            final(self).appended(old(self), bytes@),
            r == final(self).bytes@.len(),
    {
        let mut i: usize = bytes.len();
        proof {
            assert(bytes@.skip(i as int) + old(self).trail() =~= old(self).trail());
            assert(self.bytes@ =~= old(self).bytes@ + bytes@.skip(i as int).reverse());
        }
        while i > 0
            invariant
                i <= bytes.len(),
                self.bytes@ == old(self).bytes@ + bytes@.skip(i as int).reverse(),
                self.same_graph(old(self)),
                self.offsets@ == old(self).offsets@,
                self.first_edges@ == old(self).first_edges@,
                starts_with(self.bytes@, old(self).bytes@),
                self.bytes@.len() == old(self).bytes@.len() + (bytes.len() - i),
                self.trail() == bytes@.skip(i as int) + old(self).trail(),
            decreases i,
        {
            i = i - 1;
            proof {
                lemma_tail_push(self.bytes@, bytes[i as int]);
                assert(seq![bytes[i as int]] + (bytes@.skip(i + 1) + old(self).trail())
                    =~= bytes@.skip(i as int) + old(self).trail());
                assert((old(self).bytes@ + bytes@.skip(i + 1).reverse()).push(bytes[i as int])
                    =~= old(self).bytes@ + bytes@.skip(i as int).reverse());
            }
            self.bytes.push(bytes[i]);
        }
        proof {
            assert(bytes@.skip(0) =~= bytes@);
        }
        self.bytes.len()
    }

    /// Writes `length` bytes of the key arena from `offset` on.
    pub fn write_offset_and_length(&mut self, offset: usize, length: usize) -> (r: usize)
        requires
            offset + length <= old(self).strings().len(),
        ensures
            final(self).appended(
                old(self),
                old(self).strings().subrange(offset as int, offset + length),
            ),
            r == final(self).bytes@.len(),
    {
        let ghost source = self.strings().subrange(offset as int, offset + length);
        let ghost total: usize = self.graph.strings.len();
        let mut i: usize = length;
        proof {
            assert(source.skip(i as int) + old(self).trail() =~= old(self).trail());
            assert(self.bytes@ =~= old(self).bytes@ + source.skip(i as int).reverse());
        }
        while i > 0
            invariant
                i <= length,
                self.bytes@ == old(self).bytes@ + source.skip(i as int).reverse(),
                offset + length <= total,
                total == self.strings().len(),
                source == self.strings().subrange(offset as int, offset + length),
                self.same_graph(old(self)),
                self.offsets@ == old(self).offsets@,
                self.first_edges@ == old(self).first_edges@,
                starts_with(self.bytes@, old(self).bytes@),
                self.bytes@.len() == old(self).bytes@.len() + (length - i),
                self.trail() == source.skip(i as int) + old(self).trail(),
            decreases i,
        {
            i = i - 1;
            let b: u8 = self.graph.strings[offset + i];
            proof {
                lemma_tail_push(self.bytes@, b);
                assert(seq![b] + (source.skip(i + 1) + old(self).trail()) =~= source.skip(
                    i as int,
                ) + old(self).trail());
                assert((old(self).bytes@ + source.skip(i + 1).reverse()).push(b) =~= old(
                    self,
                ).bytes@ + source.skip(i as int).reverse());
            }
            self.bytes.push(b);
        }
        proof {
            assert(source.skip(0) =~= source);
        }
        self.bytes.len()
    }

    /// Writes a value with its final flag. The value may be negative.
    pub fn write_value_and_final(&mut self, value: i32, is_final: bool) -> (r: usize)
        ensures
            final(self).appended(old(self), encode_value(value, is_final)),
            r == final(self).bytes@.len(),
    {
        let encoded: Vec<u8> = CompactValue::encode(value, is_final);
        self.write_bytes(encoded.as_slice())
    }

    /// Writes the lead byte `lead` of a node, with the value of the node in
    /// front where it has one.
    pub fn write_value_and_type(&mut self, value: Option<i32>, lead: u8) -> (r: usize)
        ensures
            final(self).appended(old(self), value_and_type(value, lead)),
            r == final(self).bytes@.len(),
    {
        let ghost t0 = self.trail();
        let ghost b0 = self.bytes@;
        let r: usize = self.write_unit(lead);
        match value {
            Some(v) => {
                let r2: usize = self.write_value_and_final(v, false);
                proof {
                    assert(encode_value(v, false) + (seq![lead] + t0) =~= (encode_value(v, false)
                        + seq![lead]) + t0);
                    assert(seq![lead].reverse() + encode_value(v, false).reverse() =~= (
                    encode_value(v, false) + seq![lead]).reverse());
                    assert((b0 + seq![lead].reverse()) + encode_value(v, false).reverse() =~= b0
                        + (seq![lead].reverse() + encode_value(v, false).reverse()));
                }
                r2
            },
            None => {
                proof {
                    assert(Seq::<u8>::empty() + seq![lead] =~= seq![lead]);
                }
                r
            },
        }
    }

    /// Writes the distance from here back to `jump_target`, the offset of a
    /// node that is written.
    pub fn write_delta_to(&mut self, jump_target: i32) -> (r: usize)
        requires
            0 <= jump_target <= old(self).bytes@.len() <= i32::MAX,
        ensures
            final(self).appended(
                old(self),
                encode_delta((old(self).bytes@.len() - jump_target) as i32),
            ),
            r == final(self).bytes@.len(),
    {
        let delta: i32 = self.bytes.len() as i32 - jump_target;
        let encoded: Vec<u8> = CompactDelta::encode(delta);
        self.write_bytes(encoded.as_slice())
    }
}

} // verus!
