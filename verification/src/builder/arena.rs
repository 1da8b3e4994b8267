//! The node graph as a value: what the arena holds, and what it holds after
//! a key is added.
//!
//! The functions here say which nodes adding a key makes. Bytes of the key
//! arena are never copied: a node that is split or shortened refers to a part
//! of the bytes that it referred to before, and only the bytes of a new key
//! that no node holds yet are appended.

use vstd::prelude::*;
use crate::builder::errors::BytesTrieBuilderError;
use crate::builder::node::{Node, NodeView};
use crate::listing::lemma_take_skip;
use crate::model::lower_bound;

verus! {

/// What the arena holds: the nodes, the bytes of the key arena, and the
/// register of the final-value nodes.
pub struct Arena {
    pub nodes: Seq<NodeView>,
    pub strings: Seq<u8>,
    pub finals: Map<i32, usize>,
}

/// The nodes of an arena as values.
pub open spec fn arena_view(nodes: Seq<Node>) -> Seq<NodeView> {
    Seq::new(nodes.len(), |i: int| nodes[i]@)
}

/// The number of bytes with which `bytes` and `key` both begin.
pub open spec fn common(bytes: Seq<u8>, key: Seq<u8>) -> int
    decreases bytes.len(),
{
    if bytes.len() == 0 || key.len() == 0 || bytes[0] != key[0] {
        0
    } else {
        1 + common(bytes.skip(1), key.skip(1))
    }
}

impl Arena {
    /// The index that the next new node gets.
    pub open spec fn top(self) -> usize {
        self.nodes.len() as usize
    }

    /// The arena with one more node.
    pub open spec fn push(self, node: NodeView) -> Arena {
        Arena { nodes: self.nodes.push(node), ..self }
    }

    /// The arena with the final-value node of `value`, and that node: the
    /// registered one, or a new one that is registered.
    pub open spec fn with_final(self, value: i32) -> (Arena, usize) {
        if self.finals.contains_key(value) {
            (self, self.finals[value])
        } else {
            (
                Arena {
                    nodes: self.nodes.push(NodeView::FinalValue { value }),
                    finals: self.finals.insert(value, self.top()),
                    ..self
                },
                self.top(),
            )
        }
    }

    /// The arena with the node for a key that ends with `value` after the
    /// bytes `key`, and that node: the final-value node, after one
    /// linear-match node for all of `key`, whose bytes are appended to the
    /// key arena, where `key` is not empty.
    pub open spec fn with_suffix(self, key: Seq<u8>, value: i32) -> (Arena, usize) {
        let (a, f) = self.with_final(value);
        if key.len() == 0 {
            (a, f)
        } else {
            (
                Arena {
                    nodes: a.nodes.push(
                        NodeView::LinearMatch {
                            value: None,
                            string_offset: a.strings.len() as usize,
                            length: key.len() as usize,
                            next: f,
                        },
                    ),
                    strings: a.strings + key,
                    ..a
                },
                a.top(),
            )
        }
    }

    /// The arena after `key`, which is not empty, is added at a final value
    /// `own`, and the node that takes the place of the final value: a match
    /// with the value `own` for all of `key`, whose bytes are appended to
    /// the key arena, before the final-value node of `value`.
    pub open spec fn at_final(self, own: i32, key: Seq<u8>, value: i32) -> (Arena, usize) {
        let (a, f) = self.with_final(value);
        (
            Arena {
                nodes: a.nodes.push(
                    NodeView::LinearMatch {
                        value: Some(own),
                        string_offset: a.strings.len() as usize,
                        length: key.len() as usize,
                        next: f,
                    },
                ),
                strings: a.strings + key,
                ..a
            },
            a.top(),
        )
    }

    /// The arena after a key leaves a linear match at its first byte, and
    /// the branch that takes the place of the match. The match, which holds
    /// `own` and matches `length` bytes from `offset` on before `next`,
    /// makes way for a branch with the value `own` and two edges. The edge
    /// of the first byte of the match leads to `next` where the match had
    /// one byte, and else to a new match without a value for its other
    /// bytes. The edge of the first byte of `key` leads to the node for the
    /// rest of `key`.
    pub open spec fn branched(
        self,
        own: Option<i32>,
        offset: usize,
        length: usize,
        next: usize,
        key: Seq<u8>,
        value: i32,
    ) -> (Arena, usize) {
        let (a1, this) = if length == 1 {
            (self, next)
        } else {
            (
                self.push(
                    NodeView::LinearMatch {
                        value: None,
                        string_offset: (offset + 1) as usize,
                        length: (length - 1) as usize,
                        next,
                    },
                ),
                self.top(),
            )
        };
        let (a2, new) = a1.with_suffix(key.skip(1), value);
        let j = lower_bound(seq![self.strings[offset as int]], key[0]);
        (
            a2.push(
                NodeView::DynamicBranch {
                    value: own,
                    chars: seq![self.strings[offset as int]].insert(j, key[0]),
                    equal: seq![this].insert(j, new),
                },
            ),
            a2.top(),
        )
    }

    /// The arena after `key` is added with `value` below the node `node`,
    /// and the node that takes the place of `node`; or the error, with which
    /// the arena stays as it is.
    ///
    /// * At a final value, the value becomes the value of a new match for
    ///   all of `key`, whose bytes are appended.
    /// * At a match or a branch, the empty key gives its value to a copy of
    ///   the node.
    /// * At a match, a key that begins with all bytes of the match is
    ///   added below `next`, and a copy of the match leads to the result.
    /// * A key that ends within the match splits it: the second part is
    ///   made first, with the value of the key, and the first part with the
    ///   value of the match leads to it.
    /// * A key that leaves the match makes a branch there, after a match
    ///   for the bytes in front where there are any.
    /// * At a branch, the key is added below the edge of its first byte, or
    ///   a new edge leads to the node for the rest of the key.
    pub open spec fn with_key(self, node: int, key: Seq<u8>, value: i32) -> Result<
        (Arena, usize),
        BytesTrieBuilderError,
    >
        decreases node,
    {
        if node < 0 || node >= self.nodes.len() {
            Err(BytesTrieBuilderError::AddAfterBuild)
        } else {
            match self.nodes[node] {
                NodeView::FinalValue { value: own } => {
                    if key.len() == 0 {
                        Err(BytesTrieBuilderError::DuplicateKey)
                    } else {
                        Ok(self.at_final(own, key, value))
                    }
                },
                NodeView::LinearMatch { value: own, string_offset, length, next } => {
                    let i = common(
                        self.strings.subrange(string_offset as int, string_offset + length),
                        key,
                    );
                    if key.len() == 0 {
                        if own.is_some() {
                            Err(BytesTrieBuilderError::DuplicateKey)
                        } else {
                            Ok(
                                (
                                    self.push(
                                        NodeView::LinearMatch {
                                            value: Some(value),
                                            string_offset,
                                            length,
                                            next,
                                        },
                                    ),
                                    self.top(),
                                ),
                            )
                        }
                    } else if i == length {
                        if next < node {
                            match self.with_key(next as int, key.skip(length as int), value) {
                                Err(e) => Err(e),
                                Ok((a, below)) => Ok(
                                    (
                                        a.push(
                                            NodeView::LinearMatch {
                                                value: own,
                                                string_offset,
                                                length,
                                                next: below,
                                            },
                                        ),
                                        a.top(),
                                    ),
                                ),
                            }
                        } else {
                            Err(BytesTrieBuilderError::AddAfterBuild)
                        }
                    } else if i == key.len() {
                        Ok(
                            (
                                self.push(
                                    NodeView::LinearMatch {
                                        value: Some(value),
                                        string_offset: (string_offset + i) as usize,
                                        length: (length - i) as usize,
                                        next,
                                    },
                                ).push(
                                    NodeView::LinearMatch {
                                        value: own,
                                        string_offset,
                                        length: i as usize,
                                        next: self.top(),
                                    },
                                ),
                                (self.top() + 1) as usize,
                            ),
                        )
                    } else if i == 0 {
                        Ok(self.branched(own, string_offset, length, next, key, value))
                    } else {
                        let (a, branch) = self.branched(
                            None,
                            (string_offset + i) as usize,
                            (length - i) as usize,
                            next,
                            key.skip(i),
                            value,
                        );
                        Ok(
                            (
                                a.push(
                                    NodeView::LinearMatch {
                                        value: own,
                                        string_offset,
                                        length: i as usize,
                                        next: branch,
                                    },
                                ),
                                a.top(),
                            ),
                        )
                    }
                },
                NodeView::DynamicBranch { value: own, chars, equal } => {
                    if key.len() == 0 {
                        if own.is_some() {
                            Err(BytesTrieBuilderError::DuplicateKey)
                        } else {
                            Ok(
                                (
                                    self.push(
                                        NodeView::DynamicBranch {
                                            value: Some(value),
                                            chars,
                                            equal,
                                        },
                                    ),
                                    self.top(),
                                ),
                            )
                        }
                    } else {
                        let j = lower_bound(chars, key[0]);
                        if j < chars.len() && j < equal.len() && chars[j] == key[0] {
                            if equal[j] < node {
                                match self.with_key(equal[j] as int, key.skip(1), value) {
                                    Err(e) => Err(e),
                                    Ok((a, below)) => Ok(
                                        (
                                            a.push(
                                                NodeView::DynamicBranch {
                                                    value: own,
                                                    chars,
                                                    equal: equal.update(j, below),
                                                },
                                            ),
                                            a.top(),
                                        ),
                                    ),
                                }
                            } else {
                                Err(BytesTrieBuilderError::AddAfterBuild)
                            }
                        } else {
                            let (a, suffix) = self.with_suffix(key.skip(1), value);
                            Ok(
                                (
                                    a.push(
                                        NodeView::DynamicBranch {
                                            value: own,
                                            chars: chars.insert(j, key[0]),
                                            equal: equal.insert(j, suffix),
                                        },
                                    ),
                                    a.top(),
                                ),
                            )
                        }
                    }
                },
                _ => Err(BytesTrieBuilderError::AddAfterBuild),
            }
        }
    }
}

/// The number of bytes that a key shares with a match is the one up to
/// which they agree and at which they differ or one of them ends.
pub proof fn lemma_common(bytes: Seq<u8>, key: Seq<u8>, i: int)
    requires
        0 <= i <= bytes.len(),
        i <= key.len(),
        key.take(i) == bytes.take(i),
        i == bytes.len() || i == key.len() || bytes[i] != key[i],
    ensures
        common(bytes, key) == i,
    decreases i,
{
    if i > 0 {
        lemma_take_skip(key, bytes, i);
        if i < bytes.len() && i < key.len() {
            assert(bytes.skip(1)[i - 1] == bytes[i]);
            assert(key.skip(1)[i - 1] == key[i]);
        }
        lemma_common(bytes.skip(1), key.skip(1), i - 1);
    }
}

/// Adding a node to the arena adds its value to the values of the nodes.
pub proof fn lemma_arena_view_push(nodes: Seq<Node>, node: Node)
    ensures
        arena_view(nodes.push(node)) == arena_view(nodes).push(node@),
{
    assert(arena_view(nodes.push(node)) =~= arena_view(nodes).push(node@));
}

} // verus!
