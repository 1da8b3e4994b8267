//! Iteration over the entries of a serialized trie.
//!
//! The iterator walks the trie depth first. It does not call itself: at
//! every branch it notes on a stack where the other edges of the branch
//! are, and comes back to them when the edge that it followed is done.

use vstd::prelude::*;
use crate::encoding::{
    delta_of, delta_width, CompactDelta, CompactValue, MAX_BRANCH_LINEAR_SUB_NODE_LENGTH,
    MIN_LINEAR_MATCH, MIN_VALUE_LEAD,
};
use crate::trie::bytes_trie::BytesTrie;
use crate::trie::format::{at_max, branch_entries, entries_from, lemma_skip_skip};
use crate::trie::key_buffer::KeyBuffer;

verus! {

/// A key of the trie with its value. The value is missing where the key
/// was cut off at the greatest length that the iterator allows, or where the
/// bytes of the trie end too early.
#[derive(Debug)]
pub struct BytesTrieEntry {
    key: Vec<u8>,
    value: Option<i32>,
}

impl BytesTrieEntry {
    /// The key and the value.
    pub closed spec fn view(&self) -> (Seq<u8>, Option<i32>) {
        (self.key@, self.value)
    }

    /// The key.
    pub fn key(&self) -> (r: &[u8])
        ensures
            r@ == self@.0,
    {
        self.key.as_slice()
    }

    /// The length of the key.
    pub fn key_len(&self) -> (r: usize)
        ensures
            r == self@.0.len(),
    {
        self.key.len()
    }

    /// The value that belongs to the key.
    pub fn value(&self) -> (r: Option<i32>)
        ensures
            r == self@.1,
    {
        self.value
    }
}

/// A note of the edges of a branch that are still to be walked.
pub struct StackEntry {
    /// Where the edges stand in the bytes of the trie.
    pub position: usize,
    /// The length of the key in front of the branch.
    pub key_length: usize,
    /// The number of the edges that are left.
    pub remaining_branch_length: usize,
}

/// Where the walk stands after it has followed an edge of a branch.
enum BranchNextResult {
    /// The edge ends with this value.
    FinalValue(i32),
    /// The edge leads to the node at this position.
    NewPosition(usize),
    /// The bytes of the branch end too early or lead nowhere.
    Broken,
}

/// Where the walk stands after a node.
enum Step {
    /// The walk has come to this entry.
    Done(BytesTrieEntry),
    /// The walk goes on at this position.
    Goto(usize),
}

/// The entries that the first `n` notes of the stack stand for, those of
/// the note on top first.
pub open spec fn stack_entries(
    bytes: Seq<u8>,
    stack: Seq<StackEntry>,
    key: Seq<u8>,
    max: Option<usize>,
    n: int,
) -> Seq<(Seq<u8>, Option<i32>)>
    decreases n,
{
    if n <= 0 || n > stack.len() {
        Seq::<(Seq<u8>, Option<i32>)>::empty()
    } else {
        branch_entries(
            bytes.skip(stack[n - 1].position as int),
            stack[n - 1].remaining_branch_length as int,
            key.take(stack[n - 1].key_length as int),
            max,
        ) + stack_entries(bytes, stack, key, max, n - 1)
    }
}

/// The notes of the stack point into the bytes, and the keys in front of
/// their branches are parts of the key of `key_length` bytes, each as long
/// as the one below it or longer.
pub open spec fn stack_ok(stack: Seq<StackEntry>, key_length: int, bytes_length: int) -> bool {
    &&& forall|i: int|
        0 <= i < stack.len() ==> (#[trigger] stack[i]).position <= bytes_length
            && stack[i].key_length <= key_length
    &&& forall|i: int, j: int|
        0 <= i <= j < stack.len() ==> (#[trigger] stack[i]).key_length
            <= (#[trigger] stack[j]).key_length
}

/// The entries of the notes depend on the notes and on the parts of the key
/// in front of their branches only.
pub proof fn lemma_stack_entries_same(
    bytes: Seq<u8>,
    stack1: Seq<StackEntry>,
    key1: Seq<u8>,
    stack2: Seq<StackEntry>,
    key2: Seq<u8>,
    max: Option<usize>,
    n: int,
)
    requires
        0 <= n <= stack1.len(),
        n <= stack2.len(),
        forall|i: int| 0 <= i < n ==> stack1[i] == stack2[i],
        forall|i: int|
            0 <= i < n ==> key1.take(stack1[i].key_length as int) == key2.take(
                stack1[i].key_length as int,
            ),
    ensures
        stack_entries(bytes, stack1, key1, max, n) == stack_entries(bytes, stack2, key2, max, n),
    decreases n,
{
    if n > 0 {
        lemma_stack_entries_same(bytes, stack1, key1, stack2, key2, max, n - 1);
    }
}

/// Walks the entries of a trie in the order of its bytes, which for a trie
/// that a builder has made is the order of the keys.
pub struct BytesTrieIterator<'a> {
    bytes: &'a [u8],
    position: Option<usize>,
    stack: Vec<StackEntry>,
    key_buffer: KeyBuffer,
    max_key_length: Option<usize>,
}

impl<'a> BytesTrieIterator<'a> {
    /// The iterator is in order. Every iterator that `new` and `next` make
    /// is.
    pub closed spec fn wf(&self) -> bool {
        &&& self.key_buffer.wf()
        &&& stack_ok(self.stack@, self.key_buffer@.len() as int, self.bytes@.len() as int)
        &&& match self.position {
            Some(p) => p <= self.bytes@.len(),
            None => true,
        }
    }

    /// The bytes of the trie.
    pub closed spec fn bytes(&self) -> Seq<u8> {
        self.bytes@
    }

    /// The greatest length of a key that the iterator yields.
    pub closed spec fn max_key_length(&self) -> Option<usize> {
        self.max_key_length
    }

    /// The entries that are still to come, in their order.
    pub closed spec fn remaining(&self) -> Seq<(Seq<u8>, Option<i32>)> {
        self.entries_at(self.position)
    }

    /// The entries that are still to come where the walk stands at
    /// `position`.
    spec fn entries_at(&self, position: Option<usize>) -> Seq<(Seq<u8>, Option<i32>)> {
        (match position {
            Some(p) => entries_from(
                self.bytes@.skip(p as int),
                self.key_buffer@,
                self.max_key_length,
            ),
            None => Seq::<(Seq<u8>, Option<i32>)>::empty(),
        }) + stack_entries(
            self.bytes@,
            self.stack@,
            self.key_buffer@,
            self.max_key_length,
            self.stack@.len() as int,
        )
    }

    /// An iterator over all entries of the trie with the bytes `bytes`.
    pub fn new(bytes: &'a [u8]) -> (r: Self)
        ensures
            r.wf(),
            r.bytes() == bytes@,
            r.max_key_length().is_none(),
            r.remaining() == entries_from(bytes@, Seq::<u8>::empty(), None),
    {
        Self::with_max_key_length(bytes, None)
    }

    /// An iterator over the entries of the trie with the bytes `bytes`
    /// that cuts every key off after `max_key_length` bytes.
    pub fn with_max_key_length(bytes: &'a [u8], max_key_length: Option<usize>) -> (r: Self)
        ensures
            r.wf(),
            r.bytes() == bytes@,
            r.max_key_length() == max_key_length,
            r.remaining() == entries_from(bytes@, Seq::<u8>::empty(), max_key_length),
    {
        let r = BytesTrieIterator {
            bytes,
            position: Some(0),
            stack: Vec::new(),
            key_buffer: KeyBuffer::new(),
            max_key_length,
        };
        proof {
            assert(bytes@.skip(0) =~= bytes@);
            assert(r.remaining() =~= entries_from(bytes@, Seq::<u8>::empty(), max_key_length));
        }
        r
    }

    /// The length of the key so far.
    fn key_length(&self) -> (r: usize)
        requires
            self.key_buffer.wf(),
        ensures
            r == self.key_buffer@.len(),
    {
        self.key_buffer.len()
    }

    /// Whether the key so far is as long as a key may be.
    fn is_at_max_key_length(&self) -> (r: bool)
        requires
            self.key_buffer.wf(),
        ensures
            r == at_max(self.key_buffer@, self.max_key_length),
    {
        match self.max_key_length {
            None => false,
            Some(max_length) => self.key_length() >= max_length,
        }
    }

    /// The entry of the key so far with `value`.
    fn entry(&self, value: Option<i32>) -> (r: BytesTrieEntry)
        requires
            self.key_buffer.wf(),
        ensures
            r@ == (self.key_buffer@, value),
    {
        BytesTrieEntry { key: self.key_buffer.to_vec(), value }
    }

    /// Ends the walk of this path of the trie with the key so far, without
    /// a value.
    fn truncate_and_stop(&mut self) -> (r: BytesTrieEntry)
        requires
            old(self).key_buffer.wf(),
        ensures
            final(self).position.is_none(),
            final(self).bytes == old(self).bytes,
            final(self).stack == old(self).stack,
            final(self).key_buffer == old(self).key_buffer,
            final(self).max_key_length == old(self).max_key_length,
            r@ == (old(self).key_buffer@, None::<i32>),
    {
        self.position = None;
        self.entry(None)
    }

    /// Notes the edges of a branch that are left.
    fn push_state(&mut self, position: usize, remaining_branch_length: usize, key_length: usize)
        ensures
            final(self).position == old(self).position,
            final(self).bytes == old(self).bytes,
            final(self).key_buffer == old(self).key_buffer,
            final(self).max_key_length == old(self).max_key_length,
            final(self).stack@ == old(self).stack@.push(
                StackEntry { position, key_length, remaining_branch_length },
            ),
    {
        self.stack.push(StackEntry { position, key_length, remaining_branch_length });
    }

    /// The position behind the jump delta at `offset`.
    fn skip_delta(bytes: &[u8], offset: usize) -> (r: usize)
        requires
            offset < bytes@.len(),
            offset + delta_width(bytes@[offset as int]) <= bytes@.len(),
        ensures
            r == offset + delta_width(bytes@[offset as int]),
    {
        let ghost length: usize = bytes.len();
        offset + CompactDelta::get_width(bytes, offset)
    }

    /// The position that the jump delta at `offset` leads to, if it lies
    /// within the bytes.
    fn jump_by_delta(bytes: &[u8], offset: usize) -> (r: Option<usize>)
        requires
            offset < bytes@.len(),
            offset + delta_width(bytes@[offset as int]) <= bytes@.len(),
        ensures
            match r {
                Some(p) => delta_of(bytes@.skip(offset as int)) >= 0 && p == offset + delta_width(
                    bytes@[offset as int],
                ) + delta_of(bytes@.skip(offset as int)) && p <= bytes@.len(),
                None => delta_of(bytes@.skip(offset as int)) < 0 || offset + delta_width(
                    bytes@[offset as int],
                ) + delta_of(bytes@.skip(offset as int)) > bytes@.len(),
            },
    {
        let delta: i32 = CompactDelta::read_int(bytes, offset);
        let width: usize = CompactDelta::get_width(bytes, offset);
        if delta < 0 || delta as usize > bytes.len() - offset - width {
            None
        } else {
            Some(offset + width + delta as usize)
        }
    }

    /// Follows the first edge of the branch with `length` edges left that
    /// stands at `start`, and notes the other edges.
    fn branch_next(&mut self, start: usize, length: usize) -> (r: BranchNextResult)
        requires
            old(self).key_buffer.wf(),
            stack_ok(
                old(self).stack@,
                old(self).key_buffer@.len() as int,
                old(self).bytes@.len() as int,
            ),
            start <= old(self).bytes@.len(),
        ensures
            final(self).bytes == old(self).bytes,
            final(self).max_key_length == old(self).max_key_length,
            final(self).position == old(self).position,
            final(self).key_buffer.wf(),
            stack_ok(
                final(self).stack@,
                final(self).key_buffer@.len() as int,
                final(self).bytes@.len() as int,
            ),
            match r {
                BranchNextResult::NewPosition(p) => start < p <= old(self).bytes@.len(),
                _ => true,
            },
            branch_entries(
                old(self).bytes@.skip(start as int),
                length as int,
                old(self).key_buffer@,
                old(self).max_key_length,
            ) + old(self).entries_at(None) == (match r {
                BranchNextResult::FinalValue(v) => seq![(final(self).key_buffer@, Some(v))],
                BranchNextResult::NewPosition(p) => entries_from(
                    final(self).bytes@.skip(p as int),
                    final(self).key_buffer@,
                    final(self).max_key_length,
                ),
                BranchNextResult::Broken => seq![(final(self).key_buffer@, None::<i32>)],
            }) + final(self).entries_at(None),
    {
        let bytes: &[u8] = self.bytes;
        let ghost max = self.max_key_length;
        let ghost key = self.key_buffer@;
        let ghost total = branch_entries(bytes@.skip(start as int), length as int, key, max)
            + self.entries_at(None);
        let key_length: usize = self.key_length();
        let mut position: usize = start;
        let mut remaining: usize = length;
        proof {
            assert(Seq::<(Seq<u8>, Option<i32>)>::empty() + stack_entries(
                bytes@,
                self.stack@,
                key,
                max,
                self.stack@.len() as int,
            ) =~= stack_entries(bytes@, self.stack@, key, max, self.stack@.len() as int));
        }
        while remaining > MAX_BRANCH_LINEAR_SUB_NODE_LENGTH
            invariant
                start <= position <= bytes@.len(),
                bytes@ == self.bytes@,
                bytes@ == old(self).bytes@,
                self.bytes == old(self).bytes,
                self.max_key_length == max,
                max == old(self).max_key_length,
                self.position == old(self).position,
                self.key_buffer == old(self).key_buffer,
                self.key_buffer.wf(),
                key == self.key_buffer@,
                key_length == key.len(),
                stack_ok(self.stack@, key.len() as int, bytes@.len() as int),
                total == branch_entries(
                    old(self).bytes@.skip(start as int),
                    length as int,
                    old(self).key_buffer@,
                    old(self).max_key_length,
                ) + old(self).entries_at(None),
                total == branch_entries(bytes@.skip(position as int), remaining as int, key, max)
                    + stack_entries(bytes@, self.stack@, key, max, self.stack@.len() as int),
            decreases bytes@.len() - position,
        {
            let ghost t = bytes@.skip(position as int);
            if bytes.len() - position < 2 {
                return BranchNextResult::Broken;
            }
            let width: usize = CompactDelta::get_width(bytes, position + 1);
            if bytes.len() - position < 1 + width {
                return BranchNextResult::Broken;
            }
            proof {
                lemma_skip_skip(bytes@, position as int, 1);
            }
            match Self::jump_by_delta(bytes, position + 1) {
                None => {
                    return BranchNextResult::Broken;
                },
                Some(target) => {
                    // The edges with the greater bytes are walked later.
                    let saved: usize = Self::skip_delta(bytes, position + 1);
                    let ghost before = self.stack@;
                    let ghost d = delta_of(t.skip(1));
                    proof {
                        lemma_skip_skip(bytes@, position as int, 1 + width);
                        lemma_skip_skip(bytes@, position as int, 1 + width + d);
                    }
                    self.push_state(saved, remaining - remaining / 2, key_length);
                    proof {
                        let after = self.stack@;
                        lemma_stack_entries_same(
                            bytes@,
                            before,
                            key,
                            after,
                            key,
                            max,
                            before.len() as int,
                        );
                        assert(key.take(key_length as int) =~= key);
                        let lt = branch_entries(
                            bytes@.skip(target as int),
                            (remaining / 2) as int,
                            key,
                            max,
                        );
                        let ge = branch_entries(
                            bytes@.skip(saved as int),
                            remaining - remaining / 2,
                            key,
                            max,
                        );
                        let rest = stack_entries(bytes@, before, key, max, before.len() as int);
                        assert((lt + ge) + rest =~= lt + (ge + rest));
                    }
                    // The edges with the smaller bytes are walked now.
                    remaining = remaining / 2;
                    position = target;
                },
            }
        }
        let ghost t = bytes@.skip(position as int);
        let ghost before = self.stack@;
        let ghost rest = stack_entries(bytes@, before, key, max, before.len() as int);
        if remaining > 1 {
            // The first of a list of edges, each with a final value or a
            // jump to its node.
            if bytes.len() - position < 2 {
                return BranchNextResult::Broken;
            }
            let width: usize = CompactValue::get_width(bytes, position + 1);
            if bytes.len() - position < 1 + width {
                return BranchNextResult::Broken;
            }
            let unit: u8 = bytes[position];
            let lead: u8 = bytes[position + 1];
            let value: i32 = CompactValue::read_int(bytes, position + 1);
            proof {
                lemma_skip_skip(bytes@, position as int, 1);
                lemma_skip_skip(bytes@, position as int, 1 + width);
            }
            self.push_state(position + 1 + width, remaining - 1, key_length);
            self.key_buffer.push(unit);
            proof {
                let after = self.stack@;
                let key2 = self.key_buffer@;
                assert(key2.take(key_length as int) =~= key);
                assert(key.take(key_length as int) =~= key);
                assert forall|i: int| 0 <= i < before.len() implies key.take(
                    before[i].key_length as int,
                ) == key2.take(before[i].key_length as int) by {
                    assert(key.take(before[i].key_length as int) =~= key2.take(
                        before[i].key_length as int,
                    ));
                }
                lemma_stack_entries_same(bytes@, before, key, after, key2, max, before.len() as int);
                let others = branch_entries(
                    bytes@.skip(position + 1 + width),
                    remaining - 1,
                    key,
                    max,
                );
                assert(stack_entries(bytes@, after, key2, max, after.len() as int) == others
                    + rest);
                assert(Seq::<(Seq<u8>, Option<i32>)>::empty() + (others + rest) =~= others + rest);
            }
            let ghost others = branch_entries(
                bytes@.skip(position + 1 + width),
                remaining - 1,
                key,
                max,
            );
            if CompactValue::is_final(lead) {
                proof {
                    let first = seq![(self.key_buffer@, Some(value))];
                    assert((first + others) + rest =~= first + (others + rest));
                }
                return BranchNextResult::FinalValue(value);
            }
            if value < 0 || value as usize > bytes.len() - position - 1 - width {
                proof {
                    let first = seq![(self.key_buffer@, None::<i32>)];
                    assert((first + others) + rest =~= first + (others + rest));
                }
                return BranchNextResult::Broken;
            }
            proof {
                lemma_skip_skip(bytes@, position as int, 1 + width + value);
                let first = entries_from(
                    bytes@.skip(position + 1 + width + value),
                    self.key_buffer@,
                    max,
                );
                assert((first + others) + rest =~= first + (others + rest));
            }
            BranchNextResult::NewPosition(position + 1 + width + value as usize)
        } else {
            // The last edge leads to its node without a jump.
            if position >= bytes.len() {
                return BranchNextResult::Broken;
            }
            let unit: u8 = bytes[position];
            self.key_buffer.push(unit);
            proof {
                lemma_skip_skip(bytes@, position as int, 1);
                let key2 = self.key_buffer@;
                assert forall|i: int| 0 <= i < before.len() implies key.take(
                    before[i].key_length as int,
                ) == key2.take(before[i].key_length as int) by {
                    assert(key.take(before[i].key_length as int) =~= key2.take(
                        before[i].key_length as int,
                    ));
                }
                lemma_stack_entries_same(bytes@, before, key, before, key2, max, before.len() as int);
                assert(Seq::<(Seq<u8>, Option<i32>)>::empty() + rest =~= rest);
            }
            BranchNextResult::NewPosition(position + 1)
        }
    }

    /// Delivers the value at `position` for the key so far. The walk goes
    /// on behind the value unless the value is final or the key is as long
    /// as a key may be.
    fn step_value(&mut self, position: usize) -> (r: BytesTrieEntry)
        requires
            old(self).key_buffer.wf(),
            old(self).position.is_none(),
            position < old(self).bytes@.len(),
            old(self).bytes@[position as int] >= MIN_VALUE_LEAD,
            stack_ok(
                old(self).stack@,
                old(self).key_buffer@.len() as int,
                old(self).bytes@.len() as int,
            ),
        ensures
            final(self).wf(),
            final(self).bytes == old(self).bytes,
            final(self).max_key_length == old(self).max_key_length,
            entries_from(
                old(self).bytes@.skip(position as int),
                old(self).key_buffer@,
                old(self).max_key_length,
            ) + old(self).entries_at(None) == seq![r@] + final(self).remaining(),
    {
        let bytes: &[u8] = self.bytes;
        let ghost rest = self.entries_at(None);
        let ghost key = self.key_buffer@;
        let ghost max = self.max_key_length;
        let node: u8 = bytes[position];
        let width: usize = CompactValue::get_width(bytes, position);
        if bytes.len() - position < width {
            let e = self.entry(None);
            proof {
                assert(self.remaining() =~= rest);
            }
            return e;
        }
        let value: i32 = CompactValue::read_int(bytes, position);
        let e = self.entry(Some(value));
        if CompactValue::is_final(node) || self.is_at_max_key_length() {
            proof {
                assert(self.remaining() =~= rest);
            }
        } else {
            self.position = Some(position + width);
            proof {
                lemma_skip_skip(bytes@, position as int, width as int);
                let first = seq![(key, Some(value))];
                let more = entries_from(bytes@.skip(position + width), key, max);
                assert(self.entries_at(None) == rest);
                assert((first + more) + rest =~= first + (more + rest));
            }
        }
        e
    }

    /// Takes the bytes of the linear match at `position` into the key, as
    /// far as the key may grow.
    fn step_linear(&mut self, position: usize) -> (r: Step)
        requires
            old(self).key_buffer.wf(),
            old(self).position.is_none(),
            position < old(self).bytes@.len(),
            MIN_LINEAR_MATCH <= old(self).bytes@[position as int] < MIN_VALUE_LEAD,
            !at_max(old(self).key_buffer@, old(self).max_key_length),
            stack_ok(
                old(self).stack@,
                old(self).key_buffer@.len() as int,
                old(self).bytes@.len() as int,
            ),
        ensures
            final(self).wf(),
            final(self).position.is_none(),
            final(self).bytes == old(self).bytes,
            final(self).max_key_length == old(self).max_key_length,
            match r {
                Step::Goto(p) => position < p <= old(self).bytes@.len(),
                Step::Done(_) => true,
            },
            entries_from(
                old(self).bytes@.skip(position as int),
                old(self).key_buffer@,
                old(self).max_key_length,
            ) + old(self).entries_at(None) == (match r {
                Step::Done(e) => seq![e@],
                Step::Goto(p) => entries_from(
                    final(self).bytes@.skip(p as int),
                    final(self).key_buffer@,
                    final(self).max_key_length,
                ),
            }) + final(self).entries_at(None),
    {
        let bytes: &[u8] = self.bytes;
        let ghost rest = self.entries_at(None);
        let ghost key = self.key_buffer@;
        let ghost max = self.max_key_length;
        let ghost t = bytes@.skip(position as int);
        let ghost stack = self.stack@;
        let node: u8 = bytes[position];
        let added: usize = (node - MIN_LINEAR_MATCH) as usize + 1;
        if bytes.len() - position < 1 + added {
            let e = self.entry(None);
            return Step::Done(e);
        }
        let key_length: usize = self.key_length();
        let cut: Option<usize> = match self.max_key_length {
            Some(max_length) => if added > max_length - key_length {
                Some(max_length - key_length)
            } else {
                None
            },
            None => None,
        };
        let taken: usize = match cut {
            Some(room) => room,
            None => added,
        };
        self.key_buffer.extend_from_slice(bytes, position + 1, position + 1 + taken);
        proof {
            assert(bytes@.subrange(position + 1, position + 1 + taken) =~= t.subrange(
                1,
                1 + taken,
            ));
            lemma_skip_skip(bytes@, position as int, 1 + added);
            let key2 = self.key_buffer@;
            assert forall|i: int| 0 <= i < stack.len() implies key.take(
                stack[i].key_length as int,
            ) == key2.take(stack[i].key_length as int) by {
                assert(key.take(stack[i].key_length as int) =~= key2.take(
                    stack[i].key_length as int,
                ));
            }
            lemma_stack_entries_same(bytes@, stack, key, stack, key2, max, stack.len() as int);
            assert(self.entries_at(None) =~= rest);
        }
        match cut {
            Some(_) => {
                let e = self.truncate_and_stop();
                Step::Done(e)
            },
            None => Step::Goto(position + 1 + added),
        }
    }

    /// Follows the first edge of the branch at `position`.
    fn step_branch(&mut self, position: usize) -> (r: Step)
        requires
            old(self).key_buffer.wf(),
            old(self).position.is_none(),
            position < old(self).bytes@.len(),
            old(self).bytes@[position as int] < MIN_LINEAR_MATCH,
            !at_max(old(self).key_buffer@, old(self).max_key_length),
            stack_ok(
                old(self).stack@,
                old(self).key_buffer@.len() as int,
                old(self).bytes@.len() as int,
            ),
        ensures
            final(self).wf(),
            final(self).position.is_none(),
            final(self).bytes == old(self).bytes,
            final(self).max_key_length == old(self).max_key_length,
            match r {
                Step::Goto(p) => position < p <= old(self).bytes@.len(),
                Step::Done(_) => true,
            },
            entries_from(
                old(self).bytes@.skip(position as int),
                old(self).key_buffer@,
                old(self).max_key_length,
            ) + old(self).entries_at(None) == (match r {
                Step::Done(e) => seq![e@],
                Step::Goto(p) => entries_from(
                    final(self).bytes@.skip(p as int),
                    final(self).key_buffer@,
                    final(self).max_key_length,
                ),
            }) + final(self).entries_at(None),
    {
        let bytes: &[u8] = self.bytes;
        let node: u8 = bytes[position];
        let length: usize;
        let start: usize;
        if node != 0 {
            length = node as usize + 1;
            start = position + 1;
        } else {
            if bytes.len() - position < 2 {
                let e = self.entry(None);
                return Step::Done(e);
            }
            length = bytes[position + 1] as usize + 1;
            start = position + 2;
        }
        proof {
            lemma_skip_skip(bytes@, position as int, start - position);
        }
        match self.branch_next(start, length) {
            BranchNextResult::FinalValue(v) => {
                let e = self.entry(Some(v));
                Step::Done(e)
            },
            BranchNextResult::Broken => {
                let e = self.entry(None);
                Step::Done(e)
            },
            BranchNextResult::NewPosition(p) => Step::Goto(p),
        }
    }

    /// Walks one node on from `position`.
    fn step(&mut self, position: usize) -> (r: Step)
        requires
            old(self).key_buffer.wf(),
            old(self).position.is_none(),
            position <= old(self).bytes@.len(),
            stack_ok(
                old(self).stack@,
                old(self).key_buffer@.len() as int,
                old(self).bytes@.len() as int,
            ),
        ensures
            final(self).wf(),
            final(self).bytes == old(self).bytes,
            final(self).max_key_length == old(self).max_key_length,
            match r {
                Step::Goto(p) => {
                    &&& position < p <= old(self).bytes@.len()
                    &&& final(self).position.is_none()
                },
                Step::Done(_) => true,
            },
            entries_from(
                old(self).bytes@.skip(position as int),
                old(self).key_buffer@,
                old(self).max_key_length,
            ) + old(self).entries_at(None) == match r {
                Step::Done(e) => seq![e@] + final(self).remaining(),
                Step::Goto(p) => entries_from(
                    final(self).bytes@.skip(p as int),
                    final(self).key_buffer@,
                    final(self).max_key_length,
                ) + final(self).entries_at(None),
            },
    {
        let bytes: &[u8] = self.bytes;
        if position >= bytes.len() {
            let e = self.entry(None);
            proof {
                assert(self.remaining() =~= self.entries_at(None));
            }
            return Step::Done(e);
        }
        let node: u8 = bytes[position];
        if node >= MIN_VALUE_LEAD {
            let e = self.step_value(position);
            Step::Done(e)
        } else if self.is_at_max_key_length() {
            let e = self.truncate_and_stop();
            proof {
                assert(self.remaining() =~= self.entries_at(None));
            }
            Step::Done(e)
        } else if node < MIN_LINEAR_MATCH {
            let r = self.step_branch(position);
            proof {
                assert(self.remaining() =~= self.entries_at(None));
            }
            r
        } else {
            let r = self.step_linear(position);
            proof {
                assert(self.remaining() =~= self.entries_at(None));
            }
            r
        }
    }

    /// Goes back to the edges of a branch that were noted last.
    fn resume(&mut self) -> (r: Option<Step>)
        requires
            old(self).wf(),
            old(self).position.is_none(),
        ensures
            final(self).wf(),
            final(self).position.is_none(),
            final(self).bytes == old(self).bytes,
            final(self).max_key_length == old(self).max_key_length,
            match r {
                None => old(self).remaining().len() == 0 && final(self).remaining().len() == 0,
                Some(Step::Goto(p)) => p <= old(self).bytes@.len() && old(self).remaining()
                    == entries_from(
                    final(self).bytes@.skip(p as int),
                    final(self).key_buffer@,
                    final(self).max_key_length,
                ) + final(self).entries_at(None),
                Some(Step::Done(e)) => old(self).remaining() == seq![e@] + final(self).remaining(),
            },
    {
        let bytes: &[u8] = self.bytes;
        let ghost max = self.max_key_length;
        let ghost stack0 = self.stack@;
        let ghost key0 = self.key_buffer@;
        match self.stack.pop() {
            None => None,
            Some(top) => {
                self.key_buffer.truncate(top.key_length);
                proof {
                    let key1 = self.key_buffer@;
                    let n = self.stack@.len() as int;
                    assert(stack0[n] == top);
                    assert forall|i: int| 0 <= i < n implies key0.take(
                        stack0[i].key_length as int,
                    ) == key1.take(stack0[i].key_length as int) by {
                        assert(stack0[i].key_length <= stack0[n].key_length);
                        assert(key0.take(stack0[i].key_length as int) =~= key1.take(
                            stack0[i].key_length as int,
                        ));
                    }
                    lemma_stack_entries_same(bytes@, stack0, key0, self.stack@, key1, max, n);
                    assert forall|i: int| 0 <= i < n implies (#[trigger] self.stack@[i]).key_length
                        <= key1.len() by {
                        assert(stack0[i].key_length <= stack0[n].key_length);
                    }
                    assert(Seq::<(Seq<u8>, Option<i32>)>::empty() + stack_entries(
                        bytes@,
                        stack0,
                        key0,
                        max,
                        n + 1,
                    ) =~= stack_entries(bytes@, stack0, key0, max, n + 1));
                    assert(Seq::<(Seq<u8>, Option<i32>)>::empty() + stack_entries(
                        bytes@,
                        self.stack@,
                        key1,
                        max,
                        n,
                    ) =~= stack_entries(bytes@, self.stack@, key1, max, n));
                }
                match self.branch_next(top.position, top.remaining_branch_length) {
                    BranchNextResult::FinalValue(v) => {
                        let e = self.entry(Some(v));
                        Some(Step::Done(e))
                    },
                    BranchNextResult::Broken => {
                        let e = self.entry(None);
                        Some(Step::Done(e))
                    },
                    BranchNextResult::NewPosition(p) => Some(Step::Goto(p)),
                }
            },
        }
    }

    /// The next entry, or `None` where all entries were given.
    pub fn next(&mut self) -> (r: Option<BytesTrieEntry>)
        requires
            old(self).wf(),
        ensures
            final(self).wf(),
            final(self).bytes() == old(self).bytes(),
            final(self).max_key_length() == old(self).max_key_length(),
            match r {
                Some(entry) => {
                    &&& old(self).remaining().len() > 0
                    &&& entry@ == old(self).remaining()[0]
                    &&& final(self).remaining() == old(self).remaining().skip(1)
                },
                None => old(self).remaining().len() == 0 && final(self).remaining().len() == 0,
            },
    {
        let ghost total = self.remaining();
        let mut position: usize;
        match self.position {
            Some(p) => {
                position = p;
                self.position = None;
            },
            None => {
                match self.resume() {
                    None => {
                        return None;
                    },
                    Some(Step::Done(e)) => {
                        proof {
                            assert(total.skip(1) =~= self.remaining());
                        }
                        return Some(e);
                    },
                    Some(Step::Goto(p)) => {
                        position = p;
                    },
                }
            },
        }
        loop
            invariant
                position <= self.bytes@.len(),
                self.bytes == old(self).bytes,
                self.max_key_length == old(self).max_key_length,
                self.position.is_none(),
                self.wf(),
                total == old(self).remaining(),
                total == entries_from(
                    self.bytes@.skip(position as int),
                    self.key_buffer@,
                    self.max_key_length,
                ) + self.entries_at(None),
            decreases self.bytes@.len() - position,
        {
            match self.step(position) {
                Step::Done(e) => {
                    proof {
                        assert(total.skip(1) =~= self.remaining());
                    }
                    return Some(e);
                },
                Step::Goto(p) => {
                    position = p;
                },
            }
        }
    }
}

impl BytesTrie {
    /// An iterator over the entries of the trie. With `max_key_length` the
    /// iterator cuts every key off after that many bytes.
    pub fn iter(&self, max_key_length: Option<usize>) -> (r: BytesTrieIterator<'_>)
        ensures
            r.wf(),
            r.bytes() == self@,
            r.max_key_length() == max_key_length,
            r.remaining() == entries_from(self@, Seq::<u8>::empty(), max_key_length),
    {
        BytesTrieIterator::with_max_key_length(self.as_bytes(), max_key_length)
    }
}

} // verus!
