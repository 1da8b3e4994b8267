//! The node arena with the key arena, and the insertion of keys.

use std::collections::HashMap;
use vstd::prelude::*;
use crate::builder::arena::{arena_view, lemma_arena_view_push, Arena};
use crate::builder::node::{NodeView, 
    dynamic_kids, node_trie, sub_trie, DynamicBranchNode, FinalValueNode, Node,
};
use crate::model::{
    ascending, chain, leaf, lemma_chain_wf, lemma_lower_bound_splits, lemma_lower_bound_unique,
    lin, lower_bound, Trie,
};

verus! {

/// Tells whether `b` starts with `a`.
pub open spec fn starts_with<T>(b: Seq<T>, a: Seq<T>) -> bool {
    a.len() <= b.len() && forall|i: int| 0 <= i < a.len() ==> a[i] == #[trigger] b[i]
}

/// The node `i` and all nodes under it are of the kinds that exist while
/// keys are added, refer to earlier nodes and to bytes within the key arena,
/// and every branch has two or more edges in ascending order.
pub open spec fn dynamic_ok(nodes: Seq<Node>, strings: Seq<u8>, i: int) -> bool
    decreases i,
{
    0 <= i < nodes.len() && match nodes[i] {
        Node::FinalValue(_) => true,
        Node::LinearMatch(n) => {
            &&& n.length >= 1
            &&& n.string_offset + n.length <= strings.len()
            &&& n.next < i
            &&& dynamic_ok(nodes, strings, n.next as int)
        },
        Node::DynamicBranch(n) => {
            &&& n.chars@.len() == n.equal@.len()
            &&& n.chars@.len() >= 2
            &&& ascending(n.chars@)
            &&& forall|j: int|
                0 <= j < n.equal@.len() ==> n.equal@[j] < i && dynamic_ok(
                    nodes,
                    strings,
                    #[trigger] n.equal@[j] as int,
                )
        },
        _ => false,
    }
}

/// The tries under the edges of a dynamic branch, one by one.
pub proof fn lemma_dynamic_kids(
    nodes: Seq<Node>,
    strings: Seq<u8>,
    i: int,
    equal: Seq<usize>,
    n: int,
)
    requires
        0 <= n <= equal.len(),
    ensures
        dynamic_kids(nodes, strings, i, equal, n).len() == n,
        forall|j: int|
            0 <= j < n ==> #[trigger] dynamic_kids(nodes, strings, i, equal, n)[j] == sub_trie(
                nodes,
                strings,
                i,
                equal[j] as int,
            ),
    decreases n,
{
    if n > 0 {
        lemma_dynamic_kids(nodes, strings, i, equal, n - 1);
    }
}

/// Nodes and key bytes that are added later change nothing under a node.
pub proof fn lemma_dynamic_frame(
    nodes1: Seq<Node>,
    strings1: Seq<u8>,
    nodes2: Seq<Node>,
    strings2: Seq<u8>,
    i: int,
)
    requires
        starts_with(nodes2, nodes1),
        starts_with(strings2, strings1),
        dynamic_ok(nodes1, strings1, i),
    ensures
        dynamic_ok(nodes2, strings2, i),
        node_trie(nodes2, strings2, i) == node_trie(nodes1, strings1, i),
    decreases i,
{
    assert(nodes2[i] == nodes1[i]);
    match nodes1[i] {
        Node::FinalValue(_) => {},
        Node::LinearMatch(n) => {
            lemma_dynamic_frame(nodes1, strings1, nodes2, strings2, n.next as int);
            let a = n.string_offset as int;
            let b = n.string_offset + n.length;
            assert(strings2.subrange(a, b) =~= strings1.subrange(a, b)) by {
                assert forall|m: int| 0 <= m < b - a implies strings2.subrange(a, b)[m]
                    == strings1.subrange(a, b)[m] by {
                    assert(strings2[a + m] == strings1[a + m]);
                }
            }
        },
        Node::DynamicBranch(n) => {
            let len = n.equal@.len() as int;
            assert forall|j: int| 0 <= j < len implies dynamic_ok(
                nodes2,
                strings2,
                #[trigger] n.equal@[j] as int,
            ) && node_trie(nodes2, strings2, n.equal@[j] as int) == node_trie(
                nodes1,
                strings1,
                n.equal@[j] as int,
            ) by {
                lemma_dynamic_frame(nodes1, strings1, nodes2, strings2, n.equal@[j] as int);
            }
            lemma_dynamic_kids(nodes1, strings1, i, n.equal@, len);
            lemma_dynamic_kids(nodes2, strings2, i, n.equal@, len);
            assert(dynamic_kids(nodes2, strings2, i, n.equal@, len) =~= dynamic_kids(
                nodes1,
                strings1,
                i,
                n.equal@,
                len,
            ));
        },
        _ => {},
    }
}

/// The trie of a node of the adding phase is well-formed.
pub proof fn lemma_dynamic_wf(nodes: Seq<Node>, strings: Seq<u8>, i: int)
    requires
        dynamic_ok(nodes, strings, i),
    ensures
        node_trie(nodes, strings, i).wf(),
    decreases i,
{
    match nodes[i] {
        Node::FinalValue(_) => {},
        Node::LinearMatch(n) => {
            lemma_dynamic_wf(nodes, strings, n.next as int);
            let bytes = strings.subrange(n.string_offset as int, n.string_offset + n.length);
            lemma_chain_wf(bytes.skip(1), node_trie(nodes, strings, n.next as int));
        },
        Node::DynamicBranch(n) => {
            let len = n.equal@.len() as int;
            lemma_dynamic_kids(nodes, strings, i, n.equal@, len);
            let t = node_trie(nodes, strings, i);
            assert forall|j: int| 0 <= j < t.kids.len() implies (#[trigger] t.kids[j]).wf() by {
                lemma_dynamic_wf(nodes, strings, n.equal@[j] as int);
            }
        },
        _ => {},
    }
}

/// Copies a vector of bytes.
pub fn copy_bytes(v: &Vec<u8>) -> (r: Vec<u8>)
    ensures
        r@ == v@,
{
    let mut r: Vec<u8> = Vec::with_capacity(v.len());
    let mut i: usize = 0;
    while i < v.len()
        invariant
            i <= v.len(),
            r@ == v@.take(i as int),
        decreases v.len() - i,
    {
        r.push(v[i]);
        proof {
            assert(v@.take(i + 1) =~= v@.take(i as int).push(v[i as int]));
        }
        i = i + 1;
    }
    proof {
        assert(v@.take(v.len() as int) =~= v@);
    }
    r
}

/// Copies a vector of node indices.
pub fn copy_ids(v: &Vec<usize>) -> (r: Vec<usize>)
    ensures
        r@ == v@,
{
    let mut r: Vec<usize> = Vec::with_capacity(v.len());
    let mut i: usize = 0;
    while i < v.len()
        invariant
            i <= v.len(),
            r@ == v@.take(i as int),
        decreases v.len() - i,
    {
        r.push(v[i]);
        proof {
            assert(v@.take(i + 1) =~= v@.take(i as int).push(v[i as int]));
        }
        i = i + 1;
    }
    proof {
        assert(v@.take(v.len() as int) =~= v@);
    }
    r
}

impl DynamicBranchNode {
    /// Binary search for `c`: the index where `c` stands among the edge
    /// bytes, or where it belongs.
    pub fn find(&self, c: u8) -> (r: usize)
        requires
            ascending(self.chars@),
        ensures
            r == lower_bound(self.chars@, c),
            r <= self.chars@.len(),
    {
        let mut start: usize = 0;
        let mut limit: usize = self.chars.len();
        while start < limit
            invariant
                start <= limit <= self.chars@.len(),
                ascending(self.chars@),
                forall|j: int| 0 <= j < start ==> self.chars@[j] < c,
                forall|j: int| limit <= j < self.chars@.len() ==> self.chars@[j] >= c,
            decreases limit - start,
        {
            let i: usize = start + (limit - start) / 2;
            let middle: u8 = self.chars[i];
            if c < middle {
                limit = i;
            } else if c == middle {
                proof {
                    lemma_lower_bound_unique(self.chars@, c, i as int);
                }
                return i;
            } else {
                start = i + 1;
            }
        }
        proof {
            lemma_lower_bound_unique(self.chars@, c, start as int);
        }
        start
    }

    /// Adds the edge of `c` to `node` in its place. `c` has no edge yet.
    pub fn add_char(&mut self, c: u8, node: usize)
        requires
            ascending(old(self).chars@),
            old(self).chars@.len() == old(self).equal@.len(),
            forall|j: int| 0 <= j < old(self).chars@.len() ==> old(self).chars@[j] != c,
        ensures
            final(self).value == old(self).value,
            final(self).chars@ == old(self).chars@.insert(lower_bound(old(self).chars@, c), c),
            final(self).equal@ == old(self).equal@.insert(
                lower_bound(old(self).chars@, c),
                node,
            ),
            ascending(final(self).chars@),
    {
        let i: usize = self.find(c);
        proof {
            lemma_lower_bound_splits(self.chars@, c);
        }
        self.chars.insert(i, c);
        self.equal.insert(i, node);
        proof {
            let oc = old(self).chars@;
            let nc = self.chars@;
            assert forall|a: int, b: int| 0 <= a < b < nc.len() implies nc[a] < nc[b] by {
                if a < i && b > i {
                    assert(oc[a] < c);
                    assert(oc[b - 1] >= c);
                } else if a < i && b == i {
                    assert(oc[a] < c);
                } else if a == i {
                    assert(oc[b - 1] >= c);
                    assert(oc[b - 1] != c);
                } else if b < i {
                    assert(oc[a] < oc[b]);
                } else {
                    assert(oc[a - 1] < oc[b - 1]);
                }
            }
        }
    }
}

/// The arena of nodes, the arena of key bytes that linear-match nodes refer
/// to, and the register of the final-value nodes, of which there is one for
/// each value.
pub struct NodeGraph {
    pub strings: Vec<u8>,
    pub nodes: Vec<Node>,
    pub final_values: HashMap<i32, usize>,
}

impl NodeGraph {
    /// Every registered final value belongs to a final-value node of the
    /// arena with that value.
    pub open spec fn wf(&self) -> bool {
        forall|v: i32| #[trigger]
            self.final_values@.contains_key(v) ==> {
                &&& self.final_values@[v] < self.nodes@.len()
                &&& self.nodes@[self.final_values@[v] as int] == Node::FinalValue(
                    FinalValueNode { value: v },
                )
            }
    }

    /// What the arena holds.
    pub open spec fn view(&self) -> Arena {
        Arena {
            nodes: arena_view(self.nodes@),
            strings: self.strings@,
            finals: self.final_values@,
        }
    }

    /// The trie that the node `i` stands for.
    pub open spec fn trie(&self, i: usize) -> Trie {
        node_trie(self.nodes@, self.strings@, i as int)
    }

    /// The node `i` is a sound node of the adding phase.
    pub open spec fn dynamic(&self, i: usize) -> bool {
        dynamic_ok(self.nodes@, self.strings@, i as int)
    }

    /// Nothing of `before` was changed or removed.
    pub open spec fn extends(&self, before: &NodeGraph) -> bool {
        &&& starts_with(self.nodes@, before.nodes@)
        &&& starts_with(self.strings@, before.strings@)
    }

    /// An arena without nodes and bytes.
    pub fn new() -> (r: Self)
        ensures
            r.wf(),
            r.nodes@.len() == 0,
            r.strings@.len() == 0,
            r@ == (Arena {
                nodes: Seq::<NodeView>::empty(),
                strings: Seq::<u8>::empty(),
                finals: Map::<i32, usize>::empty(),
            }),
    {
        let r = NodeGraph { strings: Vec::new(), nodes: Vec::new(), final_values: HashMap::new() };
        proof {
            assert(r@.nodes =~= Seq::<NodeView>::empty());
        }
        r
    }

    /// Adds a node to the arena and returns its index.
    pub fn push(&mut self, node: Node) -> (r: usize)
        requires
            old(self).wf(),
        ensures
            final(self).wf(),
            final(self).nodes@ == old(self).nodes@.push(node),
            final(self).strings@ == old(self).strings@,
            final(self).final_values@ == old(self).final_values@,
            final(self).extends(old(self)),
            r == old(self).nodes@.len(),
            final(self)@ == old(self)@.push(node@),
            r == old(self)@.top(),
    {
        let r: usize = self.nodes.len();
        proof {
            lemma_arena_view_push(self.nodes@, node);
        }
        self.nodes.push(node);
        r
    }

    /// The one final-value node with the value `value`: the node that is
    /// registered for the value, or a new node, which is registered.
    pub fn register_final_value(&mut self, value: i32) -> (r: usize)
        requires
            old(self).wf(),
        ensures
            final(self).wf(),
            final(self).extends(old(self)),
            final(self).strings@ == old(self).strings@,
            r < final(self).nodes@.len(),
            final(self).nodes@[r as int] == Node::FinalValue(FinalValueNode { value }),
            (final(self)@, r) == old(self)@.with_final(value),
            old(self).final_values@.contains_key(value) ==> r == old(self).final_values@[value]
                && final(self).nodes@ == old(self).nodes@,
    {
        let found: Option<usize> = match self.final_values.get(&value) {
            Some(id) => Some(*id),
            None => None,
        };
        match found {
            Some(id) => id,
            None => {
                let id: usize = self.push(Node::new_final_value_node(value));
                self.final_values.insert(value, id);
                id
            },
        }
    }

    /// Appends the bytes of `s` from `start` on to the key arena.
    pub fn append_key_bytes(&mut self, s: &[u8], start: usize)
        requires
            start <= s.len(),
        ensures
            final(self).strings@ == old(self).strings@ + s@.skip(start as int),
            final(self).nodes@ == old(self).nodes@,
            final(self).final_values@ == old(self).final_values@,
    {
        let mut i: usize = start;
        while i < s.len()
            invariant
                start <= i <= s.len(),
                self.strings@ == old(self).strings@ + s@.subrange(start as int, i as int),
                self.nodes@ == old(self).nodes@,
                self.final_values@ == old(self).final_values@,
            decreases s.len() - i,
        {
            self.strings.push(s[i]);
            proof {
                assert(s@.subrange(start as int, i + 1) =~= s@.subrange(
                    start as int,
                    i as int,
                ).push(s[i as int]));
                assert(self.strings@ =~= old(self).strings@ + s@.subrange(start as int, i + 1));
            }
            i = i + 1;
        }
        proof {
            assert(s@.subrange(start as int, s.len() as int) =~= s@.skip(start as int));
        }
    }

    /// The node for a key that ends with `value` after the bytes of `s` from
    /// `start` on: a final-value node, after a linear-match node where bytes
    /// are left.
    pub fn create_suffix_node(&mut self, s: &[u8], start: usize, value: i32) -> (r: usize)
        requires
            old(self).wf(),
            start <= s.len(),
        ensures
            final(self).wf(),
            final(self).extends(old(self)),
            final(self).dynamic(r),
            final(self).trie(r) == chain(s@.skip(start as int), leaf(value)),
            (final(self)@, r) == old(self)@.with_suffix(s@.skip(start as int), value),
    {
        let node: usize = self.register_final_value(value);
        if start == s.len() {
            node
        } else {
            let offset: usize = self.strings.len();
            self.append_key_bytes(s, start);
            let length: usize = s.len() - start;
            let r: usize = self.push(Node::new_linear_match_node(offset, length, node));
            proof {
                let bytes = self.strings@.subrange(offset as int, offset + length);
                assert(bytes =~= s@.skip(start as int));
                assert(dynamic_ok(self.nodes@, self.strings@, node as int));
                assert(node_trie(self.nodes@, self.strings@, node as int) == leaf(value));
                assert(self.trie(r) == lin(None, bytes, leaf(value)));
            }
            r
        }
    }
}

} // verus!
