//! The registration pass: from the nodes of the adding phase to the nodes
//! that are written.

use std::collections::HashMap;
use vstd::prelude::*;
use crate::builder::finalized::{branch_ok, final_ok, lemma_arena_frame, lemma_list_kids, plain};
use crate::builder::graph::{
    dynamic_ok, lemma_dynamic_frame, lemma_dynamic_kids, starts_with, NodeGraph,
};
use crate::builder::node::{NodeView, 
    node_kids, node_labels, node_trie, BranchHeadNode, IntermediateValueNode, LinearMatchNode,
    ListBranchNode, Node, SplitBranchNode,
};
use crate::builder::marks::node_ok;
use crate::builder::arena::{arena_view, lemma_arena_view_push};
use crate::builder::steps::{reg, reg_edges, reg_node, reg_pieces, reg_range, same_view, Tree};
use crate::builder::unique::{
    lemma_first_same, lemma_first_same_none, lemma_same_hash, lemma_same_node, lemma_same_view,
    lemma_same_view_turned, same_node, spec_hash,
};
use crate::encoding::{MAX_BRANCH_LINEAR_SUB_NODE_LENGTH, MAX_LINEAR_MATCH_LENGTH};
use crate::model::{ascending, chain, leaf, lemma_chain_concat, lin, Trie};

verus! {

/// The node `c` is kept in `registry`.
pub open spec fn kept(registry: Map<u64, Vec<usize>>, c: usize) -> bool {
    exists|h: u64, k: int|
        registry.contains_key(h) && 0 <= k < registry[h]@.len() && #[trigger] registry[h]@[k] == c
}

/// Every node that is kept in `registry` is a node of the arena that is
/// ready to be written, and is kept under its hash; and no two of them are
/// equal.
pub open spec fn registry_fits(
    registry: Map<u64, Vec<usize>>,
    nodes: Seq<Node>,
    strings: Seq<u8>,
) -> bool {
    &&& forall|h: u64, k: int|
        registry.contains_key(h) && 0 <= k < registry[h]@.len() ==> {
            let c = #[trigger] registry[h]@[k];
            &&& c < nodes.len()
            &&& node_ok(nodes, strings, c as int)
            &&& spec_hash(nodes[c as int], strings) == h
        }
    &&& forall|a: usize, b: usize|
        #![trigger kept(registry, a), kept(registry, b)]
        kept(registry, a) && kept(registry, b) && same_node(nodes[a as int], nodes[b as int], strings)
            ==> a == b
}

/// Nodes that are added to the arena leave the registry as it is.
pub proof fn lemma_registry_grows(
    registry: Map<u64, Vec<usize>>,
    nodes1: Seq<Node>,
    nodes2: Seq<Node>,
    strings: Seq<u8>,
)
    requires
        registry_fits(registry, nodes1, strings),
        starts_with(nodes2, nodes1),
    ensures
        registry_fits(registry, nodes2, strings),
{
    assert forall|h: u64, k: int|
        registry.contains_key(h) && 0 <= k < registry[h]@.len() implies {
        let c = #[trigger] registry[h]@[k];
        &&& c < nodes2.len()
        &&& node_ok(nodes2, strings, c as int)
        &&& spec_hash(nodes2[c as int], strings) == h
    } by {
        let c = registry[h]@[k];
        lemma_arena_frame(nodes1, nodes2, strings, c as int);
    }
    assert forall|a: usize, b: usize|
        #![trigger kept(registry, a), kept(registry, b)]
        kept(registry, a) && kept(registry, b) && same_node(
            nodes2[a as int],
            nodes2[b as int],
            strings,
        ) implies a == b by {
        lemma_kept_below(registry, nodes1, strings, a);
        lemma_kept_below(registry, nodes1, strings, b);
    }
}

/// A node that is kept is a node of the arena.
pub proof fn lemma_kept_below(
    registry: Map<u64, Vec<usize>>,
    nodes: Seq<Node>,
    strings: Seq<u8>,
    c: usize,
)
    requires
        registry_fits(registry, nodes, strings),
        kept(registry, c),
    ensures
        c < nodes.len(),
        node_ok(nodes, strings, c as int),
{
    let (h, k) = choose|h: u64, k: int|
        registry.contains_key(h) && 0 <= k < registry[h]@.len() && #[trigger] registry[h]@[k] == c;
}

/// How to build.
#[derive(Debug, Clone, Copy, PartialEq, Eq, Structural)]
pub enum BuildMode {
    /// Builds quickly.
    Fast,
    /// Builds more slowly and with more memory, and stores equal parts of
    /// the trie once, for a shorter serialization with the same content.
    Small,
}

/// The node graph while it is turned into the nodes that are written.
pub struct BytesTrieNodeTree {
    pub graph: NodeGraph,
    pub root: usize,
    pub build_mode: BuildMode,
    /// The nodes registered so far, by their hash.
    pub registry: HashMap<u64, Vec<usize>>,
}

impl BytesTrieNodeTree {
    /// The trie that the node `i` stands for.
    pub open spec fn trie(&self, i: usize) -> Trie {
        self.graph.trie(i)
    }

    /// The node `c` is registered: it is kept to be used again for every
    /// node that equals it.
    pub open spec fn registered(&self, c: usize) -> bool {
        kept(self.registry@, c)
    }

    /// Every registered node is a node of the arena that is ready to be
    /// written, and is kept under its hash; and no two registered nodes are
    /// equal.
    pub open spec fn registry_ok(&self) -> bool {
        registry_fits(self.registry@, self.graph.nodes@, self.graph.strings@)
    }

    /// The nodes as values, and which of them are registered.
    pub open spec fn shape(&self) -> Tree {
        Tree {
            nodes: arena_view(self.graph.nodes@),
            kept: Set::new(|c: usize| kept(self.registry@, c)),
        }
    }

    /// The tree is in order.
    pub open spec fn wf(&self) -> bool {
        self.graph.wf() && self.registry_ok()
    }

    /// The node `i` is ready to be written and reading can start at it.
    pub open spec fn ready(&self, i: usize) -> bool {
        final_ok(self.graph.nodes@, self.graph.strings@, i as int)
    }

    /// The node `i` is a list or split node that is ready to be written.
    pub open spec fn ready_branch(&self, i: usize) -> bool {
        branch_ok(self.graph.nodes@, self.graph.strings@, i as int)
    }

    /// The edge bytes of the list or split node `i`.
    pub open spec fn labels(&self, i: usize) -> Seq<u8> {
        node_labels(self.graph.nodes@, i as int)
    }

    /// The tries under the edges of the list or split node `i`.
    pub open spec fn kids(&self, i: usize) -> Seq<Trie> {
        node_kids(self.graph.nodes@, self.graph.strings@, i as int)
    }

    /// Nothing of `before` was changed or removed, and no key byte added.
    pub open spec fn grown_from(&self, before: &BytesTrieNodeTree) -> bool {
        &&& starts_with(self.graph.nodes@, before.graph.nodes@)
        &&& self.graph.strings@ == before.graph.strings@
        &&& self.root == before.root
        &&& self.build_mode == before.build_mode
    }

    /// Whether a linear-match node or a branch head can hold a value. In
    /// this format it cannot: its value stands in a node of its own.
    pub fn match_nodes_can_have_values(&self) -> (r: bool)
        ensures
            !r,
    {
        false
    }

    /// The greatest number of bytes of one linear-match node.
    pub fn max_linear_match_length(&self) -> (r: usize)
        ensures
            r == MAX_LINEAR_MATCH_LENGTH,
    {
        MAX_LINEAR_MATCH_LENGTH
    }

    /// The greatest number of edges of one list node.
    pub fn max_branch_linear_sub_node_length(&self) -> (r: usize)
        ensures
            r == MAX_BRANCH_LINEAR_SUB_NODE_LENGTH,
    {
        MAX_BRANCH_LINEAR_SUB_NODE_LENGTH
    }

    /// Looks for a registered node that equals `node`.
    fn find_registered(&self, node: &Node, hash: u64) -> (r: Option<usize>)
        requires
            self.registry_ok(),
            hash == spec_hash(*node, self.graph.strings@),
        ensures
            match r {
                Some(c) => {
                    &&& self.registered(c)
                    &&& c < self.graph.nodes@.len()
                    &&& node_ok(self.graph.nodes@, self.graph.strings@, c as int)
                    &&& same_node(self.graph.nodes@[c as int], *node, self.graph.strings@)
                },
                None => forall|c: usize|
                    self.registered(c) ==> !same_node(
                        self.graph.nodes@[c as int],
                        *node,
                        self.graph.strings@,
                    ),
            },
    {
        let ghost nodes = self.graph.nodes@;
        let ghost strings = self.graph.strings@;
        match self.registry.get(&hash) {
            Some(bucket) => {
                let mut i: usize = 0;
                while i < bucket.len()
                    invariant
                        i <= bucket@.len(),
                        self.registry_ok(),
                        nodes == self.graph.nodes@,
                        strings == self.graph.strings@,
                        self.registry@.contains_key(hash),
                        self.registry@[hash] == *bucket,
                        forall|k: int|
                            0 <= k < i ==> !same_node(
                                nodes[#[trigger] bucket@[k] as int],
                                *node,
                                strings,
                            ),
                    decreases bucket@.len() - i,
                {
                    let c: usize = bucket[i];
                    proof {
                        assert(self.registry@[hash]@[i as int] == c);
                    }
                    if self.graph.nodes[c].same(node, &self.graph.strings) {
                        return Some(c);
                    }
                    i = i + 1;
                }
                proof {
                    assert forall|c: usize| self.registered(c) implies !same_node(
                        nodes[c as int],
                        *node,
                        strings,
                    ) by {
                        if same_node(nodes[c as int], *node, strings) {
                            let (h, k) = choose|h: u64, k: int|
                                self.registry@.contains_key(h) && 0 <= k < self.registry@[h]@.len()
                                    && #[trigger] self.registry@[h]@[k] == c;
                            lemma_same_hash(nodes[c as int], *node, strings);
                            assert(h == hash);
                            assert(bucket@[k] == c);
                        }
                    }
                }
                None
            },
            None => {
                proof {
                    assert forall|c: usize| self.registered(c) implies !same_node(
                        nodes[c as int],
                        *node,
                        strings,
                    ) by {
                        if same_node(nodes[c as int], *node, strings) {
                            let (h, k) = choose|h: u64, k: int|
                                self.registry@.contains_key(h) && 0 <= k < self.registry@[h]@.len()
                                    && #[trigger] self.registry@[h]@[k] == c;
                            lemma_same_hash(nodes[c as int], *node, strings);
                        }
                    }
                }
                None
            },
        }
    }

    /// Keeps the node `r`, which was added last and equals no kept node,
    /// to be used again for every node that equals it.
    fn keep(&mut self, r: usize, hash: u64)
        requires
            old(self).graph.wf(),
            r + 1 == old(self).graph.nodes@.len(),
            node_ok(old(self).graph.nodes@, old(self).graph.strings@, r as int),
            hash == spec_hash(old(self).graph.nodes@[r as int], old(self).graph.strings@),
            old(self).registry_ok(),
            forall|c: usize| #[trigger]
                kept(old(self).registry@, c) ==> c < r && !same_node(
                    old(self).graph.nodes@[c as int],
                    old(self).graph.nodes@[r as int],
                    old(self).graph.strings@,
                ) && !same_node(
                    old(self).graph.nodes@[r as int],
                    old(self).graph.nodes@[c as int],
                    old(self).graph.strings@,
                ),
        ensures
            final(self).wf(),
            final(self).graph == old(self).graph,
            final(self).root == old(self).root,
            final(self).build_mode == old(self).build_mode,
            forall|c: usize| #[trigger]
                kept(final(self).registry@, c) <==> kept(old(self).registry@, c) || c == r,
    {
        let ghost before = self.registry@;
        let ghost nodes = self.graph.nodes@;
        let ghost strings = self.graph.strings@;
        let mut bucket: Vec<usize> = match self.registry.remove(&hash) {
            Some(b) => b,
            None => Vec::new(),
        };
        let ghost old_bucket = bucket@;
        bucket.push(r);
        let ghost new_bucket = bucket;
        self.registry.insert(hash, bucket);
        proof {
            let after = self.registry@;
            assert(after.contains_key(hash));
            assert(after[hash] == new_bucket);
            assert(after[hash]@[old_bucket.len() as int] == r);
            assert(kept(after, r));
            assert forall|c: usize| kept(before, c) implies kept(after, c) by {
                let (h, k) = choose|h: u64, k: int|
                    before.contains_key(h) && 0 <= k < before[h]@.len() && #[trigger] before[h]@[k]
                        == c;
                if h == hash {
                    assert(after[hash]@[k] == c);
                } else {
                    assert(after.contains_key(h));
                    assert(after[h]@[k] == c);
                }
            }
            assert forall|c: usize| kept(after, c) implies kept(before, c) || c == r by {
                let (h, k) = choose|h: u64, k: int|
                    after.contains_key(h) && 0 <= k < after[h]@.len() && #[trigger] after[h]@[k]
                        == c;
                if h == hash {
                    if k < old_bucket.len() {
                        assert(before.contains_key(hash));
                        assert(before[hash]@[k] == c);
                    }
                } else {
                    assert(before.contains_key(h));
                    assert(before[h]@[k] == c);
                }
            }
            assert forall|h: u64, k: int|
                after.contains_key(h) && 0 <= k < after[h]@.len() implies {
                let c = #[trigger] after[h]@[k];
                &&& c < nodes.len()
                &&& node_ok(nodes, strings, c as int)
                &&& spec_hash(nodes[c as int], strings) == h
            } by {
                if h == hash {
                    if k < old_bucket.len() {
                        assert(before.contains_key(hash));
                        assert(before[hash]@[k] == after[h]@[k]);
                    }
                } else {
                    assert(before.contains_key(h));
                    assert(before[h]@[k] == after[h]@[k]);
                }
            }
            assert forall|a: usize, b: usize|
                #![trigger kept(after, a), kept(after, b)]
                kept(after, a) && kept(after, b) && same_node(
                    nodes[a as int],
                    nodes[b as int],
                    strings,
                ) implies a == b by {
                if a != r && b != r {
                    assert(kept(before, a) && kept(before, b));
                } else if a != r {
                    assert(kept(before, a));
                } else if b != r {
                    assert(kept(before, b));
                }
            }
        }
    }

    /// Makes sure that one node only is used for `node` and its equals, in a
    /// small build. Returns `node` as a new node of the arena if the build
    /// is fast or no equal node is registered, and a registered node that
    /// equals it otherwise.
    pub fn register_node(&mut self, node: Node) -> (r: usize)
        requires
            old(self).wf(),
            node_ok(
                old(self).graph.nodes@.push(node),
                old(self).graph.strings@,
                old(self).graph.nodes@.len() as int,
            ),
        ensures
            final(self).wf(),
            final(self).grown_from(old(self)),
            r < final(self).graph.nodes@.len(),
            plain(final(self).graph.nodes@[r as int]) == plain(node),
            final(self).graph.nodes@[r as int] is FinalValue == node is FinalValue,
            final(self).trie(r) == node_trie(
                old(self).graph.nodes@.push(node),
                old(self).graph.strings@,
                old(self).graph.nodes@.len() as int,
            ),
            final(self).labels(r) == node_labels(
                old(self).graph.nodes@.push(node),
                old(self).graph.nodes@.len() as int,
            ),
            final(self).kids(r) == node_kids(
                old(self).graph.nodes@.push(node),
                old(self).graph.strings@,
                old(self).graph.nodes@.len() as int,
            ),
            final(self).ready(r) == final_ok(
                old(self).graph.nodes@.push(node),
                old(self).graph.strings@,
                old(self).graph.nodes@.len() as int,
            ),
            final(self).ready_branch(r) == branch_ok(
                old(self).graph.nodes@.push(node),
                old(self).graph.strings@,
                old(self).graph.nodes@.len() as int,
            ),
            forall|c: usize| old(self).registered(c) ==> final(self).registered(c),
            (final(self).shape(), r) == reg_node(
                old(self).shape(),
                old(self).graph.strings@,
                old(self).build_mode,
                node@,
            ),
            old(self).build_mode == BuildMode::Fast ==> r == old(self).graph.nodes@.len(),
            old(self).build_mode == BuildMode::Small ==> final(self).registered(r) && ((
            exists|c: usize|
                old(self).registered(c) && same_node(
                    old(self).graph.nodes@[c as int],
                    node,
                    old(self).graph.strings@,
                )) ==> old(self).registered(r) && final(self).graph.nodes@ == old(
                self,
            ).graph.nodes@),
    {
        let ghost n0 = self.graph.nodes@;
        let ghost strings = self.graph.strings@;
        let ghost before = self.registry@;
        let ghost shape0 = self.shape();
        let ghost view = node@;
        let ghost count: usize = self.graph.nodes.len();
        proof {
            lemma_arena_view_push(n0, node);
        }
        if self.build_mode == BuildMode::Fast {
            let r: usize = self.graph.push(node);
            proof {
                lemma_registry_grows(before, n0, self.graph.nodes@, strings);
                assert(self.shape().kept =~= shape0.kept);
            }
            return r;
        }
        let hash: u64 = node.hash_code(&self.graph.strings);
        proof {
            assert forall|a: usize, b: usize|
                #![trigger shape0.kept.contains(a), shape0.kept.contains(b)]
                shape0.kept.contains(a) && shape0.kept.contains(b) && a < shape0.nodes.len() && b
                    < shape0.nodes.len() && same_view(
                    shape0.nodes[a as int],
                    shape0.nodes[b as int],
                    strings,
                ) implies a == b by {
                lemma_same_view(n0[a as int], n0[b as int], strings);
                assert(kept(before, a) && kept(before, b));
            }
        }
        match self.find_registered(&node, hash) {
            Some(c) => {
                proof {
                    lemma_same_node(n0, strings, c as int, node);
                    lemma_same_view(n0[c as int], node, strings);
                    lemma_first_same(shape0, strings, view, c, 0);
                }
                c
            },
            None => {
                proof {
                    assert forall|c: usize|
                        shape0.kept.contains(c) && c < shape0.nodes.len() implies !same_view(
                        #[trigger] shape0.nodes[c as int],
                        view,
                        strings,
                    ) by {
                        assert(kept(before, c));
                        assert(self.registered(c));
                        lemma_same_view(n0[c as int], node, strings);
                    }
                    lemma_first_same_none(shape0, strings, view, 0);
                }
                let r: usize = self.graph.push(node);
                proof {
                    let n1 = self.graph.nodes@;
                    lemma_registry_grows(before, n0, n1, strings);
                    assert forall|c: usize| #[trigger] kept(before, c) implies c < r && !same_node(
                        n1[c as int],
                        n1[r as int],
                        strings,
                    ) && !same_node(n1[r as int], n1[c as int], strings) by {
                        lemma_kept_below(before, n0, strings, c);
                        assert(shape0.kept.contains(c));
                        assert(!same_view(shape0.nodes[c as int], view, strings));
                        lemma_same_view(n0[c as int], node, strings);
                        lemma_same_view(node, n0[c as int], strings);
                        lemma_same_view_turned(view, n0[c as int]@, strings);
                    }
                }
                self.keep(r, hash);
                proof {
                    assert(self.shape().kept =~= shape0.kept.insert(r));
                }
                r
            },
        }
    }
}

/// An ascending sequence of bytes has no element below its index.
pub proof fn lemma_ascending_index(labels: Seq<u8>, i: int)
    requires
        ascending(labels),
        0 <= i < labels.len(),
    ensures
        labels[i] >= i,
    decreases i,
{
    if i > 0 {
        lemma_ascending_index(labels, i - 1);
        assert(labels[i - 1] < labels[i]);
    }
}

/// A linear stretch through `a` to a chain through `b` is a linear stretch
/// through `a + b`.
pub proof fn lemma_lin_concat(value: Option<i32>, a: Seq<u8>, b: Seq<u8>, x: Trie)
    requires
        a.len() > 0,
    ensures
        lin(value, a, chain(b, x)) == lin(value, a + b, x),
{
    lemma_chain_concat(a.skip(1), b, x);
    assert((a + b).skip(1) =~= a.skip(1) + b);
    assert((a + b)[0] == a[0]);
}

impl BytesTrieNodeTree {
    /// Registers a linear-match node of at most 16 bytes.
    fn register_linear(
        &mut self,
        value: Option<i32>,
        offset: usize,
        length: usize,
        next: usize,
    ) -> (r: usize)
        requires
            old(self).wf(),
            old(self).ready(next),
            1 <= length <= MAX_LINEAR_MATCH_LENGTH,
            offset + length <= old(self).graph.strings@.len(),
        ensures
            final(self).wf(),
            final(self).grown_from(old(self)),
            final(self).ready(r),
            final(self).trie(r) == lin(
                value,
                old(self).graph.strings@.subrange(offset as int, offset + length),
                old(self).trie(next),
            ),
            plain(final(self).graph.nodes@[r as int]) == value.is_none(),
            !(final(self).graph.nodes@[r as int] is FinalValue),
            (final(self).shape(), r) == reg_node(
                old(self).shape(),
                old(self).graph.strings@,
                old(self).build_mode,
                NodeView::LinearMatch { value, string_offset: offset, length, next },
            ),
    {
        let mut node: LinearMatchNode = LinearMatchNode::new(offset, length, next);
        node.value = value;
        let wrapped: Node = Node::LinearMatch(node);
        proof {
            let n0 = self.graph.nodes@;
            let n1 = n0.push(wrapped);
            assert(starts_with(n1, n0));
            lemma_arena_frame(n0, n1, self.graph.strings@, next as int);
            assert(n1[n0.len() as int] == wrapped);
        }
        self.register_node(wrapped)
    }

    /// Registers a value in front of a node that holds none.
    fn register_intermediate(&mut self, value: i32, next: usize) -> (r: usize)
        requires
            old(self).wf(),
            old(self).ready(next),
            plain(old(self).graph.nodes@[next as int]),
        ensures
            final(self).wf(),
            final(self).grown_from(old(self)),
            final(self).ready(r),
            final(self).trie(r) == (Trie { value: Some(value), ..old(self).trie(next) }),
            !(final(self).graph.nodes@[r as int] is FinalValue),
            (final(self).shape(), r) == reg_node(
                old(self).shape(),
                old(self).graph.strings@,
                old(self).build_mode,
                NodeView::IntermediateValue { value, next },
            ),
    {
        let wrapped: Node = Node::IntermediateValue(IntermediateValueNode::new(value, next));
        proof {
            let n0 = self.graph.nodes@;
            let n1 = n0.push(wrapped);
            assert(starts_with(n1, n0));
            lemma_arena_frame(n0, n1, self.graph.strings@, next as int);
            assert(n1[n0.len() as int] == wrapped);
            assert(n1[next as int] == n0[next as int]);
        }
        self.register_node(wrapped)
    }

    /// Registers the head of the branch whose edges are under `sub_node`.
    fn register_head(&mut self, value: Option<i32>, length: usize, sub_node: usize) -> (r: usize)
        requires
            old(self).wf(),
            old(self).ready_branch(sub_node),
            length == old(self).labels(sub_node).len(),
            length <= 256,
        ensures
            final(self).wf(),
            final(self).grown_from(old(self)),
            final(self).ready(r),
            final(self).trie(r) == (Trie {
                value,
                labels: old(self).labels(sub_node),
                kids: old(self).kids(sub_node),
            }),
            plain(final(self).graph.nodes@[r as int]) == value.is_none(),
            !(final(self).graph.nodes@[r as int] is FinalValue),
            (final(self).shape(), r) == reg_node(
                old(self).shape(),
                old(self).graph.strings@,
                old(self).build_mode,
                NodeView::BranchHead { value, length, next: sub_node },
            ),
    {
        let mut node: BranchHeadNode = BranchHeadNode::new(length, sub_node);
        node.value = value;
        let wrapped: Node = Node::BranchHead(node);
        proof {
            let n0 = self.graph.nodes@;
            let n1 = n0.push(wrapped);
            assert(starts_with(n1, n0));
            lemma_arena_frame(n0, n1, self.graph.strings@, sub_node as int);
            assert(n1[n0.len() as int] == wrapped);
        }
        self.register_node(wrapped)
    }

    /// Registers the split of a branch part into the parts under
    /// `less_than` and `greater_or_equal`.
    fn register_split(&mut self, unit: u8, less_than: usize, greater_or_equal: usize) -> (r:
        usize)
        requires
            old(self).wf(),
            old(self).ready_branch(less_than),
            old(self).ready_branch(greater_or_equal),
            old(self).labels(less_than).len() + old(self).labels(greater_or_equal).len()
                > MAX_BRANCH_LINEAR_SUB_NODE_LENGTH,
            old(self).labels(less_than).len() == (old(self).labels(less_than).len() + old(
                self,
            ).labels(greater_or_equal).len()) / 2,
            unit == old(self).labels(greater_or_equal)[0],
        ensures
            final(self).wf(),
            final(self).grown_from(old(self)),
            final(self).ready_branch(r),
            final(self).labels(r) == old(self).labels(less_than) + old(self).labels(
                greater_or_equal,
            ),
            final(self).kids(r) == old(self).kids(less_than) + old(self).kids(greater_or_equal),
            (final(self).shape(), r) == reg_node(
                old(self).shape(),
                old(self).graph.strings@,
                old(self).build_mode,
                NodeView::SplitBranch { unit, less_than, greater_or_equal },
            ),
    {
        let wrapped: Node = Node::SplitBranch(
            SplitBranchNode::new(unit, less_than, greater_or_equal),
        );
        proof {
            let n0 = self.graph.nodes@;
            let n1 = n0.push(wrapped);
            assert(starts_with(n1, n0));
            lemma_arena_frame(n0, n1, self.graph.strings@, less_than as int);
            lemma_arena_frame(n0, n1, self.graph.strings@, greater_or_equal as int);
            assert(n1[n0.len() as int] == wrapped);
        }
        self.register_node(wrapped)
    }

    /// Registers a list of two to five edges.
    fn register_list(&mut self, list: ListBranchNode) -> (r: usize)
        requires
            old(self).wf(),
            list.units@.len() == list.equal@.len(),
            list.units@.len() == list.values@.len(),
            2 <= list.units@.len() <= MAX_BRANCH_LINEAR_SUB_NODE_LENGTH,
            forall|m: int|
                0 <= m < list.equal@.len() ==> match #[trigger] list.equal@[m] {
                    Some(c) => old(self).ready(c) && !(old(self).graph.nodes@[c as int]
                        is FinalValue),
                    None => true,
                },
        ensures
            final(self).wf(),
            final(self).grown_from(old(self)),
            final(self).ready_branch(r),
            final(self).labels(r) == list.units@,
            final(self).kids(r).len() == list.units@.len(),
            forall|m: int|
                0 <= m < list.equal@.len() ==> #[trigger] final(self).kids(r)[m]
                    == match list.equal@[m] {
                    Some(c) => old(self).trie(c),
                    None => leaf(list.values@[m]),
                },
            (final(self).shape(), r) == reg_node(
                old(self).shape(),
                old(self).graph.strings@,
                old(self).build_mode,
                NodeView::ListBranch {
                    units: list.units@,
                    equal: list.equal@,
                    values: list.values@,
                },
            ),
    {
        let ghost equal = list.equal@;
        let ghost values = list.values@;
        let wrapped: Node = Node::ListBranch(list);
        proof {
            let n0 = self.graph.nodes@;
            let n1 = n0.push(wrapped);
            let k = n0.len() as int;
            let strings = self.graph.strings@;
            assert(starts_with(n1, n0));
            assert(n1[k] == wrapped);
            assert forall|m: int| 0 <= m < equal.len() implies match #[trigger] equal[m] {
                Some(c) => c < k && final_ok(n1, strings, c as int) && node_trie(
                    n1,
                    strings,
                    c as int,
                ) == node_trie(n0, strings, c as int),
                None => true,
            } by {
                match equal[m] {
                    Some(c) => {
                        assert(self.ready(c));
                        lemma_arena_frame(n0, n1, strings, c as int);
                    },
                    None => {},
                }
            }
            lemma_list_kids(n1, strings, k, equal, values, equal.len() as int);
            assert(branch_ok(n1, strings, k));
        }
        self.register_node(wrapped)
    }

    /// The byte and the node of the edge `j` of the branch `node`.
    fn branch_edge(&self, node: usize, j: usize) -> (r: (u8, usize))
        requires
            node < self.graph.nodes@.len(),
            self.graph.nodes@[node as int] is DynamicBranch,
            j < self.graph.nodes@[node as int]->DynamicBranch_0.chars@.len(),
            j < self.graph.nodes@[node as int]->DynamicBranch_0.equal@.len(),
        ensures
            r.0 == self.graph.nodes@[node as int]->DynamicBranch_0.chars@[j as int],
            r.1 == self.graph.nodes@[node as int]->DynamicBranch_0.equal@[j as int],
    {
        match &self.graph.nodes[node] {
            Node::DynamicBranch(n) => (n.chars[j], n.equal[j]),
            _ => (0, 0),
        }
    }

    /// The value of the node `i` where it is a final-value node.
    fn final_value_of(&self, i: usize) -> (r: Option<i32>)
        requires
            i < self.graph.nodes@.len(),
        ensures
            r == match self.graph.nodes@[i as int] {
                Node::FinalValue(n) => Some(n.value),
                _ => None,
            },
    {
        match &self.graph.nodes[i] {
            Node::FinalValue(n) => Some(n.value),
            _ => None,
        }
    }

    /// Turns the node `node` of the adding phase, with all nodes under it,
    /// into nodes that can be written, and returns the node that stands for
    /// the same trie.
    pub fn register(&mut self, node: usize) -> (r: usize)
        requires
            old(self).wf(),
            old(self).graph.dynamic(node),
        ensures
            final(self).wf(),
            final(self).grown_from(old(self)),
            final(self).ready(r),
            final(self).trie(r) == old(self).trie(node),
            final(self).graph.nodes@[r as int] is FinalValue == old(self).graph.nodes@[node as int]
                is FinalValue,
            (final(self).shape(), r) == reg(
                old(self).shape(),
                old(self).graph.strings@,
                old(self).build_mode,
                node as int,
            ),
        decreases node, 3int, 0int,
    {
        match &self.graph.nodes[node] {
            Node::FinalValue(_) => node,
            Node::LinearMatch(n) => {
                let value: Option<i32> = n.value;
                let offset: usize = n.string_offset;
                let length: usize = n.length;
                let next: usize = n.next;
                self.register_linear_match(node, value, offset, length, next)
            },
            Node::DynamicBranch(n) => {
                let value: Option<i32> = n.value;
                let count: usize = n.chars.len();
                self.register_dynamic_branch(node, value, count)
            },
            _ => node,
        }
    }

    /// Registers what a linear-match node leads to, and the node itself in
    /// pieces of at most 16 bytes. Its value goes into a node of its own.
    fn register_linear_match(
        &mut self,
        node: usize,
        value: Option<i32>,
        offset: usize,
        length: usize,
        next: usize,
    ) -> (r: usize)
        requires
            old(self).wf(),
            old(self).graph.dynamic(node),
            old(self).graph.nodes@[node as int] == Node::LinearMatch(
                LinearMatchNode { value, string_offset: offset, length, next },
            ),
        ensures
            final(self).wf(),
            final(self).grown_from(old(self)),
            final(self).ready(r),
            final(self).trie(r) == old(self).trie(node),
            !(final(self).graph.nodes@[r as int] is FinalValue),
            (final(self).shape(), r) == reg(
                old(self).shape(),
                old(self).graph.strings@,
                old(self).build_mode,
                node as int,
            ),
        decreases node, 2int, 0int,
    {
        let ghost strings = self.graph.strings@;
        let ghost bytes = strings.subrange(offset as int, offset + length);
        let ghost x = self.trie(next);
        let ghost total: usize = self.graph.strings.len();
        let ghost shape0 = self.shape();
        let ghost mode = self.build_mode;
        let mut below: usize = self.register(next);
        let ghost shape1 = self.shape();
        let ghost below1 = below;
        let mut len: usize = length;
        let max: usize = self.max_linear_match_length();
        proof {
            assert(bytes.skip(length as int) =~= Seq::<u8>::empty());
            assert(shape0.nodes[node as int] == old(self).graph.nodes@[node as int]@);
            assert(next < node);
        }
        while len > max
            invariant
                1 <= len <= length,
                mode == self.build_mode,
                reg_pieces(self.shape(), strings, mode, offset, len, below) == reg_pieces(
                    shape1,
                    strings,
                    mode,
                    offset,
                    length,
                    below1,
                ),
                max == MAX_LINEAR_MATCH_LENGTH,
                offset + length <= total,
                total == strings.len(),
                strings == self.graph.strings@,
                bytes == strings.subrange(offset as int, offset + length),
                self.wf(),
                self.grown_from(old(self)),
                self.ready(below),
                self.trie(below) == chain(bytes.skip(len as int), x),
            decreases len,
        {
            let next_offset: usize = offset + len - max;
            let ghost before = len;
            len = len - max;
            below = self.register_linear(None, next_offset, max, below);
            proof {
                let a = strings.subrange(next_offset as int, next_offset + max);
                let b = bytes.skip(before as int);
                assert(a + b =~= bytes.skip(len as int));
                lemma_chain_concat(a, b, x);
                assert(lin(None, a, chain(b, x)) == chain(a, chain(b, x)));
            }
        }
        let ghost head = bytes.take(len as int);
        proof {
            assert(head =~= strings.subrange(offset as int, offset + len));
            assert(head + bytes.skip(len as int) =~= bytes);
            lemma_lin_concat(value, head, bytes.skip(len as int), x);
            lemma_lin_concat(None, head, bytes.skip(len as int), x);
        }
        match value {
            Some(v) => {
                if self.match_nodes_can_have_values() {
                    self.register_linear(value, offset, len, below)
                } else {
                    let inner: usize = self.register_linear(None, offset, len, below);
                    self.register_intermediate(v, inner)
                }
            },
            None => self.register_linear(None, offset, len, below),
        }
    }

    /// Registers the edges of a branch as list and split nodes under a
    /// branch head. The value of the branch goes into a node of its own.
    fn register_dynamic_branch(&mut self, node: usize, value: Option<i32>, count: usize) -> (r:
        usize)
        requires
            old(self).wf(),
            old(self).graph.dynamic(node),
            old(self).graph.nodes@[node as int] is DynamicBranch,
            old(self).graph.nodes@[node as int]->DynamicBranch_0.value == value,
            old(self).graph.nodes@[node as int]->DynamicBranch_0.chars@.len() == count,
        ensures
            final(self).wf(),
            final(self).grown_from(old(self)),
            final(self).ready(r),
            final(self).trie(r) == old(self).trie(node),
            !(final(self).graph.nodes@[r as int] is FinalValue),
            (final(self).shape(), r) == reg(
                old(self).shape(),
                old(self).graph.strings@,
                old(self).build_mode,
                node as int,
            ),
        decreases node, 2int, 0int,
    {
        let ghost t = self.trie(node);
        let ghost chars = self.graph.nodes@[node as int]->DynamicBranch_0.chars@;
        let ghost equal = self.graph.nodes@[node as int]->DynamicBranch_0.equal@;
        proof {
            lemma_ascending_index(chars, count - 1);
            lemma_dynamic_kids(
                self.graph.nodes@,
                self.graph.strings@,
                node as int,
                equal,
                equal.len() as int,
            );
        }
        let sub_node: usize = self.register_with_limits(node, 0, count);
        proof {
            assert(chars.subrange(0, count as int) =~= chars);
            assert(t.kids.subrange(0, count as int) =~= t.kids);
        }
        match value {
            Some(v) => {
                if self.match_nodes_can_have_values() {
                    self.register_head(value, count, sub_node)
                } else {
                    let head: usize = self.register_head(None, count, sub_node);
                    self.register_intermediate(v, head)
                }
            },
            None => self.register_head(None, count, sub_node),
        }
    }

    /// Registers the edges from `start` to `limit` of the branch `node`: as
    /// a list where they are five at most, else split in two halves.
    fn register_with_limits(&mut self, node: usize, start: usize, limit: usize) -> (r: usize)
        requires
            old(self).wf(),
            old(self).graph.dynamic(node),
            old(self).graph.nodes@[node as int] is DynamicBranch,
            start + 2 <= limit,
            limit <= old(self).graph.nodes@[node as int]->DynamicBranch_0.chars@.len(),
        ensures
            final(self).wf(),
            final(self).grown_from(old(self)),
            final(self).ready_branch(r),
            final(self).labels(r) == old(self).graph.nodes@[node as int]->DynamicBranch_0.chars@
                .subrange(start as int, limit as int),
            final(self).kids(r) == old(self).trie(node).kids.subrange(start as int, limit as int),
            (final(self).shape(), r) == reg_range(
                old(self).shape(),
                old(self).graph.strings@,
                old(self).build_mode,
                node as int,
                start as int,
                limit as int,
            ),
        decreases node, 1int, limit - start,
    {
        let ghost n0 = self.graph.nodes@;
        let ghost strings = self.graph.strings@;
        let ghost t = self.trie(node);
        let ghost chars = n0[node as int]->DynamicBranch_0.chars@;
        let ghost equal = n0[node as int]->DynamicBranch_0.equal@;
        proof {
            lemma_dynamic_kids(n0, strings, node as int, equal, equal.len() as int);
        }
        let length: usize = limit - start;
        if length > self.max_branch_linear_sub_node_length() {
            // Branch on the middle byte.
            let middle: usize = start + length / 2;
            let less_than: usize = self.register_with_limits(node, start, middle);
            let ghost n1 = self.graph.nodes@;
            proof {
                lemma_dynamic_frame(n0, strings, n1, strings, node as int);
            }
            let greater_or_equal: usize = self.register_with_limits(node, middle, limit);
            let unit: u8 = self.branch_edge(node, middle).0;
            proof {
                let n2 = self.graph.nodes@;
                lemma_arena_frame(n1, n2, strings, less_than as int);
                assert(chars.subrange(middle as int, limit as int)[0] == chars[middle as int]);
            }
            let r: usize = self.register_split(unit, less_than, greater_or_equal);
            proof {
                assert(chars.subrange(start as int, middle as int) + chars.subrange(
                    middle as int,
                    limit as int,
                ) =~= chars.subrange(start as int, limit as int));
                assert(t.kids.subrange(start as int, middle as int) + t.kids.subrange(
                    middle as int,
                    limit as int,
                ) =~= t.kids.subrange(start as int, limit as int));
            }
            return r;
        }
        let mut list: ListBranchNode = ListBranchNode::new(length);
        let mut j: usize = start;
        let ghost shape0 = self.shape();
        let ghost mode = self.build_mode;
        while j < limit
            invariant
                start <= j <= limit,
                limit <= chars.len(),
                mode == self.build_mode,
                shape0 == old(self).shape(),
                reg_edges(
                    self.shape(),
                    strings,
                    mode,
                    node as int,
                    j as int,
                    limit as int,
                    NodeView::ListBranch {
                        units: list.units@,
                        equal: list.equal@,
                        values: list.values@,
                    },
                ) == reg_edges(
                    shape0,
                    strings,
                    mode,
                    node as int,
                    start as int,
                    limit as int,
                    NodeView::ListBranch {
                        units: Seq::<u8>::empty(),
                        equal: Seq::<Option<usize>>::empty(),
                        values: Seq::<i32>::empty(),
                    },
                ),
                chars.len() == equal.len(),
                node < n0.len(),
                n0[node as int] is DynamicBranch,
                chars == n0[node as int]->DynamicBranch_0.chars@,
                equal == n0[node as int]->DynamicBranch_0.equal@,
                dynamic_ok(n0, strings, node as int),
                t.kids.len() == equal.len(),
                forall|m: int|
                    0 <= m < equal.len() ==> #[trigger] t.kids[m] == node_trie(
                        n0,
                        strings,
                        equal[m] as int,
                    ),
                self.wf(),
                self.grown_from(old(self)),
                strings == self.graph.strings@,
                n0 == old(self).graph.nodes@,
                list.units@ == chars.subrange(start as int, j as int),
                list.equal@.len() == j - start,
                list.values@.len() == j - start,
                forall|m: int|
                    0 <= m < j - start ==> match #[trigger] list.equal@[m] {
                        Some(c) => self.ready(c) && self.trie(c) == t.kids[start + m] && !(
                        self.graph.nodes@[c as int] is FinalValue),
                        None => leaf(list.values@[m]) == t.kids[start + m],
                    },
            decreases limit - j,
        {
            let ghost n1 = self.graph.nodes@;
            let ghost before = list.equal@;
            let ghost before_values = list.values@;
            let edge: (u8, usize) = self.branch_edge(node, j);
            let child: usize = edge.1;
            proof {
                assert(self.shape().nodes[node as int] == n0[node as int]@);
                assert(self.shape().nodes[child as int] == self.graph.nodes@[child as int]@);
                assert(equal[j as int] < node && dynamic_ok(n0, strings, equal[j as int] as int));
                lemma_dynamic_frame(n0, strings, n1, strings, child as int);
                assert(t.kids[j as int] == node_trie(n0, strings, child as int));
            }
            match self.final_value_of(child) {
                Some(v) => {
                    list.add_with_final_value(edge.0, v);
                },
                None => {
                    let registered: usize = self.register(child);
                    list.add_with_match_node(edge.0, registered);
                },
            }
            proof {
                let n2 = self.graph.nodes@;
                assert(list.units@ =~= chars.subrange(start as int, j + 1));
                assert forall|m: int| 0 <= m < j + 1 - start implies match #[trigger] list.equal@[m] {
                    Some(c) => self.ready(c) && self.trie(c) == t.kids[start + m] && !(
                    self.graph.nodes@[c as int] is FinalValue),
                    None => leaf(list.values@[m]) == t.kids[start + m],
                } by {
                    if m < j - start {
                        assert(list.equal@[m] == before[m]);
                        assert(list.values@[m] == before_values[m]);
                        match before[m] {
                            Some(c) => {
                                lemma_arena_frame(n1, n2, strings, c as int);
                            },
                            None => {},
                        }
                    }
                }
            }
            j = j + 1;
        }
        let ghost units = list.units@;
        let ghost list_equal = list.equal@;
        let ghost list_values = list.values@;
        let ghost n3 = self.graph.nodes@;
        let r: usize = self.register_list(list);
        proof {
            let want = t.kids.subrange(start as int, limit as int);
            assert forall|m: int| 0 <= m < want.len() implies self.kids(r)[m] == want[m] by {
                match list_equal[m] {
                    Some(c) => {},
                    None => {},
                }
            }
            assert(self.kids(r) =~= want);
        }
        r
    }
}

} // verus!
