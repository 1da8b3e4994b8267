//! Adding one key to the node graph.
//!
//! A key is added from the root down. Each node on the way is replaced by a
//! new node that holds the key as well, and the parent refers to the
//! replacement.

use vstd::prelude::*;
use crate::builder::arena::{lemma_common, Arena};
use crate::builder::errors::BytesTrieBuilderError;
use crate::builder::graph::{
    copy_bytes, copy_ids, dynamic_ok, lemma_dynamic_frame, lemma_dynamic_kids, NodeGraph,
};
use crate::builder::node::{NodeView, node_trie, DynamicBranchNode, LinearMatchNode, Node};
use crate::model::{
    ascending, chain, leaf, lemma_insert_below_prefix, lemma_lin_get, lemma_lower_bound_one,
    lemma_lower_bound_splits, lin, lower_bound,
};

verus! {

/// The node is of a kind to which keys are added: a final value, a linear
/// match or a branch of the adding phase.
pub open spec fn takes_keys(node: Node) -> bool {
    node is FinalValue || node is LinearMatch || node is DynamicBranch
}

impl NodeGraph {
    /// Adds a linear-match node for `length` bytes of the key arena.
    pub fn push_linear(
        &mut self,
        value: Option<i32>,
        offset: usize,
        length: usize,
        next: usize,
    ) -> (r: usize)
        requires
            old(self).wf(),
            old(self).dynamic(next),
            length >= 1,
            offset + length <= old(self).strings@.len(),
        ensures
            final(self).wf(),
            final(self).extends(old(self)),
            final(self).strings@ == old(self).strings@,
            final(self).nodes@.len() == old(self).nodes@.len() + 1,
            r == old(self).nodes@.len(),
            final(self).dynamic(r),
            final(self).trie(r) == lin(
                value,
                old(self).strings@.subrange(offset as int, offset + length),
                old(self).trie(next),
            ),
            final(self)@ == old(self)@.push(
                NodeView::LinearMatch { value, string_offset: offset, length, next },
            ),
            r == old(self)@.top(),
    {
        let mut node: LinearMatchNode = LinearMatchNode::new(offset, length, next);
        node.value = value;
        let r: usize = self.push(Node::LinearMatch(node));
        proof {
            lemma_dynamic_frame(
                old(self).nodes@,
                old(self).strings@,
                self.nodes@,
                self.strings@,
                next as int,
            );
        }
        r
    }

    /// Adds a branch node.
    pub fn push_branch(&mut self, branch: DynamicBranchNode) -> (r: usize)
        requires
            old(self).wf(),
            branch.chars@.len() == branch.equal@.len(),
            branch.chars@.len() >= 2,
            ascending(branch.chars@),
            forall|j: int|
                0 <= j < branch.equal@.len() ==> old(self).dynamic(#[trigger] branch.equal@[j]),
        ensures
            final(self).wf(),
            final(self).extends(old(self)),
            final(self).strings@ == old(self).strings@,
            final(self).nodes@.len() == old(self).nodes@.len() + 1,
            r == old(self).nodes@.len(),
            final(self).dynamic(r),
            final(self).trie(r).value == branch.value,
            final(self).trie(r).labels == branch.chars@,
            final(self).trie(r).kids.len() == branch.equal@.len(),
            forall|j: int|
                0 <= j < branch.equal@.len() ==> #[trigger] final(self).trie(r).kids[j] == old(
                    self,
                ).trie(branch.equal@[j]),
            final(self)@ == old(self)@.push(
                NodeView::DynamicBranch {
                    value: branch.value,
                    chars: branch.chars@,
                    equal: branch.equal@,
                },
            ),
            r == old(self)@.top(),
    {
        let ghost equal = branch.equal@;
        let r: usize = self.push(Node::DynamicBranch(branch));
        proof {
            assert forall|j: int| 0 <= j < equal.len() implies equal[j] < r && dynamic_ok(
                self.nodes@,
                self.strings@,
                #[trigger] equal[j] as int,
            ) && node_trie(self.nodes@, self.strings@, equal[j] as int) == old(self).trie(
                equal[j],
            ) by {
                assert(old(self).dynamic(equal[j]));
                lemma_dynamic_frame(
                    old(self).nodes@,
                    old(self).strings@,
                    self.nodes@,
                    self.strings@,
                    equal[j] as int,
                );
            }
            lemma_dynamic_kids(self.nodes@, self.strings@, r as int, equal, equal.len() as int);
        }
        r
    }

    /// The place of `c` among the edges of the branch `node`, and the node
    /// that the edge of `c` leads to where there is one.
    fn branch_find(&self, node: usize, c: u8) -> (r: (usize, Option<usize>))
        requires
            self.dynamic(node),
            self.nodes@[node as int] is DynamicBranch,
        ensures
            r.0 == lower_bound(self.nodes@[node as int]->DynamicBranch_0.chars@, c),
            r.1 == if r.0 < self.nodes@[node as int]->DynamicBranch_0.chars@.len()
                && self.nodes@[node as int]->DynamicBranch_0.chars@[r.0 as int] == c {
                Some(self.nodes@[node as int]->DynamicBranch_0.equal@[r.0 as int])
            } else {
                None
            },
    {
        match &self.nodes[node] {
            Node::DynamicBranch(n) => {
                let j: usize = n.find(c);
                if j < n.chars.len() && n.chars[j] == c {
                    (j, Some(n.equal[j]))
                } else {
                    (j, None)
                }
            },
            _ => (0, None),
        }
    }

    /// A copy of the branch `node`.
    fn branch_copy(&self, node: usize) -> (r: DynamicBranchNode)
        requires
            node < self.nodes@.len(),
            self.nodes@[node as int] is DynamicBranch,
        ensures
            r.value == self.nodes@[node as int]->DynamicBranch_0.value,
            r.chars@ == self.nodes@[node as int]->DynamicBranch_0.chars@,
            r.equal@ == self.nodes@[node as int]->DynamicBranch_0.equal@,
    {
        match &self.nodes[node] {
            Node::DynamicBranch(n) => DynamicBranchNode {
                value: n.value,
                chars: copy_bytes(&n.chars),
                equal: copy_ids(&n.equal),
            },
            _ => DynamicBranchNode::new(),
        }
    }

    /// Adds the key that consists of the bytes of `s` from `start` on, with
    /// `value`, to the trie under `node`. Returns the node that takes the
    /// place of `node`; or `DuplicateKey` where the key has a value already;
    /// or `AddAfterBuild` where `node` is a node that building has made.
    /// Nothing is changed where an error is returned.
    pub fn add(&mut self, node: usize, s: &[u8], start: usize, value: i32) -> (r: Result<
        usize,
        BytesTrieBuilderError,
    >)
        requires
            old(self).wf(),
            node < old(self).nodes@.len(),
            takes_keys(old(self).nodes@[node as int]) ==> old(self).dynamic(node),
            start <= s.len(),
        ensures
            final(self).wf(),
            final(self).extends(old(self)),
            match r {
                Ok(id) => {
                    &&& takes_keys(old(self).nodes@[node as int])
                    &&& old(self).trie(node).get(s@.skip(start as int)).is_none()
                    &&& final(self).dynamic(id)
                    &&& final(self).trie(id) == old(self).trie(node).insert(
                        s@.skip(start as int),
                        value,
                    )
                    &&& old(self)@.with_key(node as int, s@.skip(start as int), value) == Ok::<
                        (Arena, usize),
                        BytesTrieBuilderError,
                    >((final(self)@, id))
                },
                Err(e) => {
                    &&& *final(self) == *old(self)
                    &&& old(self)@.with_key(node as int, s@.skip(start as int), value) == Err::<
                        (Arena, usize),
                        BytesTrieBuilderError,
                    >(e)
                    &&& if takes_keys(old(self).nodes@[node as int]) {
                        &&& e == BytesTrieBuilderError::DuplicateKey
                        &&& old(self).trie(node).get(s@.skip(start as int)).is_some()
                    } else {
                        e == BytesTrieBuilderError::AddAfterBuild
                    }
                },
            },
        decreases node, 1int,
    {
        match &self.nodes[node] {
            Node::FinalValue(n) => {
                let own_value: i32 = n.value;
                self.add_to_final_value(own_value, s, start, value)
            },
            Node::LinearMatch(n) => {
                let own_value: Option<i32> = n.value;
                let offset: usize = n.string_offset;
                let length: usize = n.length;
                let next: usize = n.next;
                self.add_to_linear_match(node, own_value, offset, length, next, s, start, value)
            },
            Node::DynamicBranch(n) => {
                let own_value: Option<i32> = n.value;
                self.add_to_dynamic_branch(node, own_value, s, start, value)
            },
            _ => Err(BytesTrieBuilderError::AddAfterBuild),
        }
    }

    /// Adds a key to a final value: the final value becomes the value of a
    /// linear-match node for the key.
    fn add_to_final_value(&mut self, own_value: i32, s: &[u8], start: usize, value: i32) -> (r:
        Result<usize, BytesTrieBuilderError>)
        requires
            old(self).wf(),
            start <= s.len(),
        ensures
            final(self).wf(),
            final(self).extends(old(self)),
            match r {
                Ok(id) => {
                    &&& start < s.len()
                    &&& leaf(own_value).get(s@.skip(start as int)).is_none()
                    &&& final(self).dynamic(id)
                    &&& final(self).trie(id) == leaf(own_value).insert(
                        s@.skip(start as int),
                        value,
                    )
                    &&& (final(self)@, id) == old(self)@.at_final(
                        own_value,
                        s@.skip(start as int),
                        value,
                    )
                },
                Err(e) => {
                    &&& start == s.len()
                    &&& e == BytesTrieBuilderError::DuplicateKey
                    &&& leaf(own_value).get(s@.skip(start as int)).is_some()
                    &&& *final(self) == *old(self)
                },
            },
    {
        if start == s.len() {
            return Err(BytesTrieBuilderError::DuplicateKey);
        }
        let ghost key = s@.skip(start as int);
        let next: usize = self.register_final_value(value);
        let offset: usize = self.strings.len();
        self.append_key_bytes(s, start);
        proof {
            assert(self.dynamic(next));
            assert(self.trie(next) == leaf(value));
        }
        let r: usize = self.push_linear(Some(own_value), offset, s.len() - start, next);
        proof {
            assert(lower_bound(Seq::<u8>::empty(), key[0]) == 0);
            let t = leaf(own_value);
            assert(t.labels.insert(0, key[0]) =~= seq![key[0]]);
            assert(t.kids.insert(0, chain(key.skip(1), leaf(value))) =~= seq![
                chain(key.skip(1), leaf(value)),
            ]);
            assert(self.strings@.subrange(offset as int, offset + (s.len() - start)) =~= key);
        }
        Ok(r)
    }

    /// The number of bytes at the start of a linear match that the key
    /// shares with it: the key ends after them, or leaves the match there,
    /// or the match is over.
    fn common_prefix(&self, offset: usize, length: usize, s: &[u8], start: usize) -> (i: usize)
        requires
            offset + length <= self.strings@.len(),
            start <= s.len(),
        ensures
            i <= length,
            start + i <= s.len(),
            s@.skip(start as int).take(i as int) == self.strings@.subrange(
                offset as int,
                offset + length,
            ).take(i as int),
            i == length || start + i == s.len() || self.strings@[offset + i] != s@[start + i],
    {
        let ghost key = s@.skip(start as int);
        let ghost bytes = self.strings@.subrange(offset as int, offset + length);
        let ghost total: usize = self.strings.len();
        let mut i: usize = 0;
        proof {
            assert(key.take(0) =~= bytes.take(0));
        }
        while i < length && start + i < s.len() && self.strings[offset + i] == s[start + i]
            invariant
                i <= length,
                start + i <= s.len(),
                total == self.strings@.len(),
                offset + length <= total,
                key == s@.skip(start as int),
                bytes == self.strings@.subrange(offset as int, offset + length),
                key.take(i as int) == bytes.take(i as int),
            decreases length - i,
        {
            proof {
                assert(key.take(i + 1) =~= key.take(i as int).push(s@[start + i]));
                assert(bytes.take(i + 1) =~= bytes.take(i as int).push(self.strings@[offset + i]));
            }
            i = i + 1;
        }
        i
    }

    /// Splits a linear match after `i` bytes, where the key ends, and gives
    /// the second part the value of the key.
    fn split_at_key_end(
        &mut self,
        own_value: Option<i32>,
        offset: usize,
        length: usize,
        next: usize,
        i: usize,
        value: i32,
    ) -> (r: usize)
        requires
            old(self).wf(),
            old(self).dynamic(next),
            1 <= i < length,
            offset + length <= old(self).strings@.len(),
        ensures
            final(self).wf(),
            final(self).extends(old(self)),
            final(self).dynamic(r),
            final(self).trie(r) == lin(
                own_value,
                old(self).strings@.subrange(offset as int, offset + length),
                old(self).trie(next),
            ).insert(
                old(self).strings@.subrange(offset as int, offset + length).take(i as int),
                value,
            ),
            final(self)@ == old(self)@.push(
                NodeView::LinearMatch {
                    value: Some(value),
                    string_offset: (offset + i) as usize,
                    length: (length - i) as usize,
                    next,
                },
            ).push(
                NodeView::LinearMatch {
                    value: own_value,
                    string_offset: offset,
                    length: i,
                    next: old(self)@.top(),
                },
            ),
            r == old(self).nodes@.len() + 1,
    {
        let ghost bytes = self.strings@.subrange(offset as int, offset + length);
        let ghost key = bytes.take(i as int);
        let ghost x = self.trie(next);
        let ghost total: usize = self.strings.len();
        let suffix: usize = self.push_linear(Some(value), offset + i, length - i, next);
        let r: usize = self.push_linear(own_value, offset, i, suffix);
        proof {
            assert(key.take(i as int) =~= bytes.take(i as int));
            lemma_insert_below_prefix(own_value, bytes, x, key, value, i as int);
            assert(bytes.skip(i as int) =~= self.strings@.subrange(offset + i, offset + length));
            assert(bytes.take(i as int) =~= self.strings@.subrange(offset as int, offset + i));
            assert(key.skip(i as int).len() == 0);
            assert(chain(bytes.skip(i as int), x).insert(key.skip(i as int), value) == lin(
                Some(value),
                bytes.skip(i as int),
                x,
            ));
        }
        r
    }

    /// Puts a branch where the key leaves a linear match at its first
    /// byte: one edge for the rest of the match, one for the rest of the key.
    fn branch_at_start(
        &mut self,
        own_value: Option<i32>,
        offset: usize,
        length: usize,
        next: usize,
        s: &[u8],
        start: usize,
        value: i32,
    ) -> (r: usize)
        requires
            old(self).wf(),
            old(self).dynamic(next),
            1 <= length,
            offset + length <= old(self).strings@.len(),
            start < s.len(),
            old(self).strings@[offset as int] != s@[start as int],
        ensures
            final(self).wf(),
            final(self).extends(old(self)),
            final(self).dynamic(r),
            final(self).trie(r) == lin(
                own_value,
                old(self).strings@.subrange(offset as int, offset + length),
                old(self).trie(next),
            ).insert(s@.skip(start as int), value),
            (final(self)@, r) == old(self)@.branched(
                own_value,
                offset,
                length,
                next,
                s@.skip(start as int),
                value,
            ),
    {
        let ghost bytes = self.strings@.subrange(offset as int, offset + length);
        let ghost key = s@.skip(start as int);
        let ghost x = self.trie(next);
        let ghost total: usize = self.strings.len();
        let this_char: u8 = self.strings[offset];
        let new_char: u8 = s[start];
        let this_suffix: usize = if length == 1 {
            next
        } else {
            self.push_linear(None, offset + 1, length - 1, next)
        };
        let ghost this_trie = chain(bytes.skip(1), x);
        proof {
            assert(bytes.skip(1) =~= old(self).strings@.subrange(offset + 1, offset + length));
            if length > 1 {
                assert(chain(bytes.skip(1), x) == lin(None, bytes.skip(1), x));
            }
            assert(self.trie(this_suffix) == this_trie);
        }
        let ghost n1 = self.nodes@;
        let ghost s1 = self.strings@;
        let new_suffix: usize = self.create_suffix_node(s, start + 1, value);
        let ghost new_trie = chain(key.skip(1), leaf(value));
        proof {
            assert(key.skip(1) =~= s@.skip(start + 1));
            lemma_dynamic_frame(n1, s1, self.nodes@, self.strings@, this_suffix as int);
        }
        let mut branch: DynamicBranchNode = DynamicBranchNode::new();
        branch.value = own_value;
        branch.add_char(this_char, this_suffix);
        proof {
            lemma_lower_bound_one(this_char, new_char);
            assert(branch.chars@ =~= seq![this_char]);
            assert(branch.equal@ =~= seq![this_suffix]);
        }
        branch.add_char(new_char, new_suffix);
        let ghost j = lower_bound(seq![this_char], new_char);
        let r: usize = self.push_branch(branch);
        proof {
            let bt = self.trie(r);
            let t = lin(own_value, bytes, x);
            let expect = t.insert(key, value);
            assert(t.labels =~= seq![this_char]);
            assert(t.kids =~= seq![this_trie]);
            assert(key[0] == new_char);
            assert(expect.labels == seq![this_char].insert(j, new_char));
            assert(expect.kids == seq![this_trie].insert(j, new_trie));
            assert(bt.labels =~= expect.labels);
            assert(bt.kids =~= expect.kids);
        }
        r
    }

    /// Adds a key to a linear-match node.
    fn add_to_linear_match(
        &mut self,
        node: usize,
        own_value: Option<i32>,
        offset: usize,
        length: usize,
        next: usize,
        s: &[u8],
        start: usize,
        value: i32,
    ) -> (r: Result<usize, BytesTrieBuilderError>)
        requires
            old(self).wf(),
            old(self).dynamic(node),
            old(self).nodes@[node as int] == Node::LinearMatch(
                LinearMatchNode { value: own_value, string_offset: offset, length, next },
            ),
            start <= s.len(),
        ensures
            final(self).wf(),
            final(self).extends(old(self)),
            match r {
                Ok(id) => {
                    &&& old(self).trie(node).get(s@.skip(start as int)).is_none()
                    &&& final(self).dynamic(id)
                    &&& final(self).trie(id) == old(self).trie(node).insert(
                        s@.skip(start as int),
                        value,
                    )
                    &&& old(self)@.with_key(node as int, s@.skip(start as int), value) == Ok::<
                        (Arena, usize),
                        BytesTrieBuilderError,
                    >((final(self)@, id))
                },
                Err(e) => {
                    &&& e == BytesTrieBuilderError::DuplicateKey
                    &&& old(self).trie(node).get(s@.skip(start as int)).is_some()
                    &&& *final(self) == *old(self)
                    &&& old(self)@.with_key(node as int, s@.skip(start as int), value) == Err::<
                        (Arena, usize),
                        BytesTrieBuilderError,
                    >(e)
                },
            },
        decreases node, 0int,
    {
        let ghost key = s@.skip(start as int);
        let ghost bytes = self.strings@.subrange(offset as int, offset + length);
        let ghost x = self.trie(next);
        let ghost t = self.trie(node);
        proof {
            assert(t == lin(own_value, bytes, x));
            lemma_lin_get(own_value, bytes, x, key);
        }
        if start == s.len() {
            if own_value.is_some() {
                return Err(BytesTrieBuilderError::DuplicateKey);
            }
            let r: usize = self.push_linear(Some(value), offset, length, next);
            return Ok(r);
        }
        let ghost total: usize = self.strings.len();
        let ghost before = self@;
        let i: usize = self.common_prefix(offset, length, s, start);
        proof {
            if i < length && start + i < s.len() {
                assert(bytes[i as int] == self.strings@[offset + i]);
                assert(key[i as int] == s@[start + i]);
            }
            lemma_common(bytes, key, i as int);
            assert(before.nodes[node as int] == self.nodes@[node as int]@);
        }
        if i == length {
            // All bytes of this node match: the key goes on below it.
            proof {
                assert(bytes.take(length as int) =~= bytes);
                assert(key.skip(length as int) =~= s@.skip(start + length));
                assert(self.dynamic(next));
                assert(takes_keys(self.nodes@[next as int]));
            }
            match self.add(next, s, start + length, value) {
                Err(e) => Err(e),
                Ok(below) => {
                    let r: usize = self.push_linear(own_value, offset, length, below);
                    proof {
                        lemma_insert_below_prefix(own_value, bytes, x, key, value, length as int);
                        assert(bytes.skip(length as int).len() == 0);
                        assert(self.strings@.subrange(offset as int, offset + length) =~= bytes);
                        assert(before.with_key(node as int, key, value) == Ok::<
                            (Arena, usize),
                            BytesTrieBuilderError,
                        >((self@, r)));
                    }
                    Ok(r)
                },
            }
        } else if start + i == s.len() {
            // The key ends within the bytes of this node: split the node.
            proof {
                assert(key.take(i as int) =~= key);
            }
            let r: usize = self.split_at_key_end(own_value, offset, length, next, i, value);
            proof {
                assert(before.with_key(node as int, key, value) == Ok::<
                    (Arena, usize),
                    BytesTrieBuilderError,
                >((self@, r)));
            }
            Ok(r)
        } else {
            // The key leaves the bytes of this node: branch there.
            proof {
                if key.len() >= length {
                    assert(key.take(length as int)[i as int] != bytes[i as int]);
                }
            }
            if i == 0 {
                let r: usize = self.branch_at_start(
                    own_value,
                    offset,
                    length,
                    next,
                    s,
                    start,
                    value,
                );
                proof {
                    assert(before.with_key(node as int, key, value) == Ok::<
                        (Arena, usize),
                        BytesTrieBuilderError,
                    >((self@, r)));
                }
                Ok(r)
            } else {
                let ghost rest = bytes.skip(i as int);
                let ghost krest = key.skip(i as int);
                proof {
                    assert(rest =~= self.strings@.subrange(offset + i, offset + length));
                    assert(krest =~= s@.skip(start + i));
                }
                let branch: usize = self.branch_at_start(
                    None,
                    offset + i,
                    length - i,
                    next,
                    s,
                    start + i,
                    value,
                );
                let ghost s2 = self.strings@;
                let ghost branch_trie = self.trie(branch);
                let r: usize = self.push_linear(own_value, offset, i, branch);
                proof {
                    lemma_insert_below_prefix(own_value, bytes, x, key, value, i as int);
                    assert(chain(rest, x) == lin(None, rest, x));
                    assert(bytes.take(i as int) =~= s2.subrange(offset as int, offset + i));
                    assert(self.trie(r) == lin(own_value, bytes.take(i as int), branch_trie));
                    assert(before.with_key(node as int, key, value) == Ok::<
                        (Arena, usize),
                        BytesTrieBuilderError,
                    >((self@, r)));
                }
                Ok(r)
            }
        }
    }

    /// Adds a key to a branch node.
    fn add_to_dynamic_branch(
        &mut self,
        node: usize,
        own_value: Option<i32>,
        s: &[u8],
        start: usize,
        value: i32,
    ) -> (r: Result<usize, BytesTrieBuilderError>)
        requires
            old(self).wf(),
            old(self).dynamic(node),
            old(self).nodes@[node as int] is DynamicBranch,
            old(self).nodes@[node as int]->DynamicBranch_0.value == own_value,
            start <= s.len(),
        ensures
            final(self).wf(),
            final(self).extends(old(self)),
            match r {
                Ok(id) => {
                    &&& old(self).trie(node).get(s@.skip(start as int)).is_none()
                    &&& final(self).dynamic(id)
                    &&& final(self).trie(id) == old(self).trie(node).insert(
                        s@.skip(start as int),
                        value,
                    )
                    &&& old(self)@.with_key(node as int, s@.skip(start as int), value) == Ok::<
                        (Arena, usize),
                        BytesTrieBuilderError,
                    >((final(self)@, id))
                },
                Err(e) => {
                    &&& e == BytesTrieBuilderError::DuplicateKey
                    &&& old(self).trie(node).get(s@.skip(start as int)).is_some()
                    &&& *final(self) == *old(self)
                    &&& old(self)@.with_key(node as int, s@.skip(start as int), value) == Err::<
                        (Arena, usize),
                        BytesTrieBuilderError,
                    >(e)
                },
            },
        decreases node, 0int,
    {
        let ghost key = s@.skip(start as int);
        let ghost t = self.trie(node);
        let ghost chars = self.nodes@[node as int]->DynamicBranch_0.chars@;
        let ghost equal = self.nodes@[node as int]->DynamicBranch_0.equal@;
        let ghost n0 = self.nodes@;
        let ghost s0 = self.strings@;
        proof {
            lemma_dynamic_kids(n0, s0, node as int, equal, equal.len() as int);
            assert(t.labels == chars);
            assert forall|m: int| 0 <= m < equal.len() implies #[trigger] t.kids[m] == node_trie(
                n0,
                s0,
                equal[m] as int,
            ) by {}
        }
        if start == s.len() {
            if own_value.is_some() {
                return Err(BytesTrieBuilderError::DuplicateKey);
            }
            let mut branch: DynamicBranchNode = self.branch_copy(node);
            branch.value = Some(value);
            let r: usize = self.push_branch(branch);
            proof {
                assert(self.trie(r).kids =~= t.kids);
            }
            return Ok(r);
        }
        let c: u8 = s[start];
        let found: (usize, Option<usize>) = self.branch_find(node, c);
        let j: usize = found.0;
        proof {
            lemma_lower_bound_splits(chars, c);
            assert(key.skip(1) =~= s@.skip(start + 1));
            assert(key[0] == c);
        }
        match found.1 {
            Some(child) => {
                proof {
                    assert(child == equal[j as int]);
                    assert(self.dynamic(child));
                    assert(takes_keys(self.nodes@[child as int]));
                }
                match self.add(child, s, start + 1, value) {
                    Err(e) => Err(e),
                    Ok(below) => {
                        let ghost n1 = self.nodes@;
                        let ghost s1 = self.strings@;
                        let ghost below_trie = self.trie(below);
                        let mut branch: DynamicBranchNode = self.branch_copy(node);
                        branch.equal[j] = below;
                        proof {
                            assert forall|m: int| 0 <= m < branch.equal@.len() implies self.dynamic(
                                #[trigger] branch.equal@[m],
                            ) && self.trie(branch.equal@[m]) == if m == j {
                                below_trie
                            } else {
                                t.kids[m]
                            } by {
                                if m != j {
                                    lemma_dynamic_frame(n0, s0, n1, s1, equal[m] as int);
                                }
                            }
                        }
                        let r: usize = self.push_branch(branch);
                        proof {
                            assert(self.trie(r).kids =~= t.kids.update(j as int, below_trie));
                        }
                        Ok(r)
                    },
                }
            },
            None => {
                let suffix: usize = self.create_suffix_node(s, start + 1, value);
                let ghost n1 = self.nodes@;
                let ghost s1 = self.strings@;
                let ghost suffix_trie = self.trie(suffix);
                let mut branch: DynamicBranchNode = self.branch_copy(node);
                branch.add_char(c, suffix);
                proof {
                    assert forall|m: int| 0 <= m < branch.equal@.len() implies self.dynamic(
                        #[trigger] branch.equal@[m],
                    ) && self.trie(branch.equal@[m]) == t.kids.insert(j as int, suffix_trie)[m] by {
                        if m < j {
                            lemma_dynamic_frame(n0, s0, n1, s1, equal[m] as int);
                        } else if m > j {
                            lemma_dynamic_frame(n0, s0, n1, s1, equal[m - 1] as int);
                        }
                    }
                }
                let r: usize = self.push_branch(branch);
                proof {
                    assert(self.trie(r).kids =~= t.kids.insert(j as int, suffix_trie));
                }
                Ok(r)
            },
        }
    }
}

} // verus!
