//! The builder: keys and values go in, the bytes of a trie come out.

use vstd::prelude::*;
use crate::builder::emit::{lemma_written_node, written_ok};
use crate::builder::arena::Arena;
use crate::builder::errors::BytesTrieBuilderError;
use crate::builder::finalized::final_ok;
use crate::builder::graph::{lemma_dynamic_wf, starts_with, NodeGraph};
use crate::builder::layout::tail;
use crate::builder::marks::marks_ok;
use crate::builder::meaning::{lemma_start_entries, lemma_start_lookup};
use crate::builder::node::{node_trie, NodeView};
use crate::builder::register::{BuildMode, BytesTrieNodeTree};
use crate::builder::steps::{built, no_numbers, numbered, reg, wrote, Marks, Out, Tree};
use crate::builder::writer::BytesTrieWriter;
use crate::model::{
    chain, leaf, lemma_chain_count, lemma_chain_get, lemma_insert_count, lemma_insert_get, map_get,
    map_of,
};
use crate::listing::{entries, is_listing, lemma_entries_list, lemma_listing_unique, with_values};
use crate::trie::format::{all_entries, lookup};

verus! {

/// The greatest length of a key.
pub const MAX_KEY_LENGTH: usize = 0xffff;

/// The greatest load with which a trie can be built: with more, the jumps
/// within the trie might not fit into 32 bits.
pub const MAX_LOAD: usize = 0x0600_0000;

/// Collects keys with their values and builds the serialized trie.
pub struct BytesTrieBuilder {
    graph: NodeGraph,
    root: Option<usize>,
    load: usize,
}

impl BytesTrieBuilder {
    /// The builder is in order. Every builder that `new` and `add` make is.
    pub closed spec fn wf(&self) -> bool {
        &&& self.graph.wf()
        &&& match self.root {
            Some(r) => self.graph.dynamic(r) && (self.load == usize::MAX || self.graph.trie(
                r,
            ).count() <= self.load),
            None => self.load == 0,
        }
    }

    /// The keys that were added, with their values.
    pub closed spec fn view(&self) -> Map<Seq<u8>, i32> {
        match self.root {
            Some(r) => map_of(self.graph.trie(r)),
            None => Map::empty(),
        }
    }

    /// Whether no key was added.
    pub closed spec fn spec_is_empty(&self) -> bool {
        self.root.is_none()
    }

    /// What the node arena of the builder holds.
    pub closed spec fn graph(&self) -> Arena {
        self.graph@
    }

    /// The root node, once a key was added.
    pub closed spec fn root(&self) -> Option<usize> {
        self.root
    }

    /// The bytes of the key arena.
    pub closed spec fn arena(&self) -> Seq<u8> {
        self.graph.strings@
    }

    /// What `add` does to the node arena and the root: the first key gets
    /// its suffix nodes, and every other key is added below the root.
    pub open spec fn graph_with(graph: Arena, root: Option<usize>, key: Seq<u8>, value: i32)
        -> Result<(Arena, usize), BytesTrieBuilderError> {
        match root {
            None => Ok(graph.with_suffix(key, value)),
            Some(r) => graph.with_key(r as int, key, value),
        }
    }

    /// The load: the sum of the lengths of the keys that were added, plus 1
    /// for each key; `usize::MAX` where the sum is that or more.
    pub closed spec fn spec_load(&self) -> nat {
        self.load as nat
    }

    /// The load after a key of `n` bytes is added to the load `load`.
    pub open spec fn load_with(load: nat, n: nat) -> nat {
        if load + n + 1 >= usize::MAX {
            usize::MAX as nat
        } else {
            load + n + 1
        }
    }

    /// A builder without keys.
    pub fn new() -> (r: Self)
        ensures
            r.wf(),
            r@ == Map::<Seq<u8>, i32>::empty(),
            r.spec_is_empty(),
            r.spec_load() == 0,
            r.root().is_none(),
            r.graph() == (Arena {
                nodes: Seq::<NodeView>::empty(),
                strings: Seq::<u8>::empty(),
                finals: Map::<i32, usize>::empty(),
            }),
    {
        BytesTrieBuilder { graph: NodeGraph::new(), root: None, load: 0 }
    }

    /// Whether no key was added.
    pub fn is_empty(&self) -> (r: bool)
        ensures
            r == self.spec_is_empty(),
    {
        self.root.is_none()
    }

    /// The load of the builder.
    pub fn load(&self) -> (r: usize)
        ensures
            r == self.spec_load(),
    {
        self.load
    }

    /// Adds `key` with `value`. A key of more than 0xffff bytes is refused
    /// with `KeyTooLong`, a key that was added before with `DuplicateKey`;
    /// the builder stays as it was in both cases.
    pub fn add(&mut self, key: &[u8], value: i32) -> (r: Result<(), BytesTrieBuilderError>)
        requires
            old(self).wf(),
        ensures
            final(self).wf(),
            match r {
                Ok(_) => {
                    &&& key@.len() <= MAX_KEY_LENGTH
                    &&& !old(self)@.contains_key(key@)
                    &&& final(self)@ == old(self)@.insert(key@, value)
                    &&& !final(self).spec_is_empty()
                    &&& final(self).spec_load() == Self::load_with(
                        old(self).spec_load(),
                        key@.len(),
                    )
                    &&& starts_with(final(self).arena(), old(self).arena())
                    &&& final(self).arena() == final(self).graph().strings
                    &&& final(self).root().is_some()
                    &&& Self::graph_with(old(self).graph(), old(self).root(), key@, value) == Ok::<
                        (Arena, usize),
                        BytesTrieBuilderError,
                    >((final(self).graph(), final(self).root().unwrap()))
                },
                Err(e) => {
                    &&& *final(self) == *old(self)
                    &&& final(self)@ == old(self)@
                    &&& final(self).spec_is_empty() == old(self).spec_is_empty()
                    &&& final(self).spec_load() == old(self).spec_load()
                    &&& if key@.len() > MAX_KEY_LENGTH {
                        e == BytesTrieBuilderError::KeyTooLong
                    } else {
                        e == BytesTrieBuilderError::DuplicateKey && old(self)@.contains_key(key@)
                    }
                },
            },
    {
        self.add_impl(key, value)
    }

    /// Adds `key` with `value`, as `add` does.
    pub fn add_impl(&mut self, s: &[u8], value: i32) -> (r: Result<(), BytesTrieBuilderError>)
        requires
            old(self).wf(),
        ensures
            final(self).wf(),
            match r {
                Ok(_) => {
                    &&& s@.len() <= MAX_KEY_LENGTH
                    &&& !old(self)@.contains_key(s@)
                    &&& final(self)@ == old(self)@.insert(s@, value)
                    &&& !final(self).spec_is_empty()
                    &&& final(self).spec_load() == Self::load_with(
                        old(self).spec_load(),
                        s@.len(),
                    )
                    &&& starts_with(final(self).arena(), old(self).arena())
                    &&& final(self).arena() == final(self).graph().strings
                    &&& final(self).root().is_some()
                    &&& Self::graph_with(old(self).graph(), old(self).root(), s@, value) == Ok::<
                        (Arena, usize),
                        BytesTrieBuilderError,
                    >((final(self).graph(), final(self).root().unwrap()))
                },
                Err(e) => {
                    &&& *final(self) == *old(self)
                    &&& final(self)@ == old(self)@
                    &&& final(self).spec_is_empty() == old(self).spec_is_empty()
                    &&& final(self).spec_load() == old(self).spec_load()
                    &&& if s@.len() > MAX_KEY_LENGTH {
                        e == BytesTrieBuilderError::KeyTooLong
                    } else {
                        e == BytesTrieBuilderError::DuplicateKey && old(self)@.contains_key(s@)
                    }
                },
            },
    {
        if s.len() > MAX_KEY_LENGTH {
            return Err(BytesTrieBuilderError::KeyTooLong);
        }
        let added: usize = s.len() + 1;
        let new_load: usize = if self.load > usize::MAX - added {
            usize::MAX
        } else {
            self.load + added
        };
        proof {
            assert(s@.skip(0) =~= s@);
        }
        match self.root {
            None => {
                let node: usize = self.graph.create_suffix_node(s, 0, value);
                self.root = Some(node);
                self.load = new_load;
                proof {
                    let t = chain(s@, leaf(value));
                    lemma_chain_count(s@, leaf(value));
                    assert(leaf(value).count() == 1);
                    assert forall|k: Seq<u8>| #[trigger]
                        map_of(t).contains_key(k) <==> k == s@ by {
                        lemma_chain_get(s@, leaf(value), k);
                        if k.len() >= s@.len() && k.take(s@.len() as int) == s@ {
                            if k.len() == s@.len() {
                                assert(k.take(s@.len() as int) =~= k);
                            } else {
                                assert(k.skip(s@.len() as int).len() > 0);
                            }
                        }
                        if k == s@ {
                            assert(k.take(s@.len() as int) =~= k);
                        }
                    }
                    lemma_chain_get(s@, leaf(value), s@);
                    assert(s@.take(s@.len() as int) =~= s@);
                    assert(map_of(t) =~= Map::<Seq<u8>, i32>::empty().insert(s@, value));
                }
                Ok(())
            },
            Some(root) => {
                let ghost t = self.graph.trie(root);
                proof {
                    lemma_dynamic_wf(self.graph.nodes@, self.graph.strings@, root as int);
                }
                match self.graph.add(root, s, 0, value) {
                    Err(e) => Err(e),
                    Ok(node) => {
                        self.root = Some(node);
                        self.load = new_load;
                        proof {
                            let t2 = t.insert(s@, value);
                            lemma_insert_count(t, s@, value);
                            assert forall|k: Seq<u8>|
                                map_get(map_of(t2), k) == map_get(
                                    map_of(t).insert(s@, value),
                                    k,
                                ) by {
                                lemma_insert_get(t, s@, value, k);
                            }
                            assert forall|k: Seq<u8>| #[trigger]
                                map_of(t2).contains_key(k) <==> map_of(t).insert(
                                    s@,
                                    value,
                                ).contains_key(k) by {
                                lemma_insert_get(t, s@, value, k);
                            }
                            assert forall|k: Seq<u8>| #[trigger]
                                map_of(t2).contains_key(k) implies map_of(t2)[k] == map_of(
                                    t,
                                ).insert(s@, value)[k] by {
                                lemma_insert_get(t, s@, value, k);
                            }
                            assert(map_of(t2) =~= map_of(t).insert(s@, value));
                        }
                        Ok(())
                    },
                }
            },
        }
    }

    /// Builds the trie quickly. Returns its bytes, or `EmptyBuilder` where
    /// no key was added. Looking a key up in the bytes gives the value that
    /// was added with it, and nothing for any other key. Iteration over the
    /// bytes yields the keys that were added, with their values, in strictly
    /// ascending order.
    pub fn build_fast(self) -> (r: Result<Vec<u8>, BytesTrieBuilderError>)
        requires
            self.wf(),
            self.spec_load() <= MAX_LOAD,
        ensures
            match r {
                Ok(bytes) => {
                    &&& !self.spec_is_empty()
                    &&& forall|key: Seq<u8>| #[trigger] lookup(bytes@, key) == map_get(self@, key)
                    &&& is_listing(all_entries(bytes@), self@)
                    &&& bytes@ == built(self.graph(), self.root().unwrap(), BuildMode::Fast)
                },
                Err(e) => self.spec_is_empty() && e == BytesTrieBuilderError::EmptyBuilder,
            },
    {
        self.build_impl(BuildMode::Fast)
    }

    /// Builds the trie with equal parts stored once: more slowly than
    /// `build_fast`, for fewer bytes with the same content. Returns the
    /// bytes, or `EmptyBuilder` where no key was added.
    pub fn build_small(self) -> (r: Result<Vec<u8>, BytesTrieBuilderError>)
        requires
            self.wf(),
            self.spec_load() <= MAX_LOAD,
        ensures
            match r {
                Ok(bytes) => {
                    &&& !self.spec_is_empty()
                    &&& forall|key: Seq<u8>| #[trigger] lookup(bytes@, key) == map_get(self@, key)
                    &&& is_listing(all_entries(bytes@), self@)
                    &&& bytes@ == built(self.graph(), self.root().unwrap(), BuildMode::Small)
                },
                Err(e) => self.spec_is_empty() && e == BytesTrieBuilderError::EmptyBuilder,
            },
    {
        self.build_impl(BuildMode::Small)
    }

    /// Builds the trie in the mode `build_mode`.
    pub fn build_impl(self, build_mode: BuildMode) -> (r: Result<
        Vec<u8>,
        BytesTrieBuilderError,
    >)
        requires
            self.wf(),
            self.spec_load() <= MAX_LOAD,
        ensures
            match r {
                Ok(bytes) => {
                    &&& !self.spec_is_empty()
                    &&& forall|key: Seq<u8>| #[trigger] lookup(bytes@, key) == map_get(self@, key)
                    &&& is_listing(all_entries(bytes@), self@)
                    &&& bytes@ == built(self.graph(), self.root().unwrap(), build_mode)
                },
                Err(e) => self.spec_is_empty() && e == BytesTrieBuilderError::EmptyBuilder,
            },
    {
        let ghost view = self@;
        let ghost graph = self.graph();
        let ghost root = self.root();
        match BytesTrieNodeTree::from_builder(self, build_mode) {
            Err(e) => Err(e),
            Ok(tree) => {
                let ghost t = tree.trie(tree.root);
                let ghost shape = tree.shape();
                let ghost registered = tree.root;
                match BytesTrieWriter::from_node_tree(tree) {
                    Err(e) => Err(e),
                    Ok(w) => {
                        let mut writer: BytesTrieWriter = w;
                        let ghost marks0 = writer.marks();
                        proof {
                            assert(writer.views() == shape.nodes);
                        }
                        writer.number_edges();
                        let ghost marks1 = writer.marks();
                        let ghost out1 = writer.out();
                        proof {
                            assert(writer.views() == shape.nodes);
                            assert(out1.bytes =~= Seq::<u8>::empty());
                            assert(out1 == Out { offs: marks1.offs, bytes: Seq::<u8>::empty() });
                        }
                        let bytes: Vec<u8> = writer.into_bytes();
                        proof {
                            assert(bytes@ == built(graph, root.unwrap(), build_mode));
                            assert forall|key: Seq<u8>| #[trigger]
                                lookup(bytes@, key) == map_get(view, key) by {
                                assert(lookup(bytes@, key) == t.get(key));
                            }
                            lemma_entries_list(t);
                        }
                        Ok(bytes)
                    },
                }
            },
        }
    }
}

impl BytesTrieNodeTree {
    /// Turns the nodes of the builder into nodes that correspond one to
    /// one to the units of the serialized trie.
    pub fn from_builder(builder: BytesTrieBuilder, build_mode: BuildMode) -> (r: Result<
        Self,
        BytesTrieBuilderError,
    >)
        requires
            builder.wf(),
            builder.spec_load() <= MAX_LOAD,
        ensures
            match r {
                Ok(tree) => {
                    &&& !builder.spec_is_empty()
                    &&& tree.wf()
                    &&& tree.ready(tree.root)
                    &&& tree.trie(tree.root).wf()
                    &&& tree.trie(tree.root).count() <= MAX_LOAD
                    &&& map_of(tree.trie(tree.root)) == builder@
                    &&& tree.build_mode == build_mode
                    &&& tree.graph.strings@ == builder.graph().strings
                    &&& builder.root().is_some()
                    &&& (tree.shape(), tree.root) == reg(
                        Tree { nodes: builder.graph().nodes, kept: Set::<usize>::empty() },
                        builder.graph().strings,
                        build_mode,
                        builder.root().unwrap() as int,
                    )
                },
                Err(e) => builder.spec_is_empty() && e == BytesTrieBuilderError::EmptyBuilder,
            },
    {
        let BytesTrieBuilder { graph, root, load } = builder;
        match root {
            None => Err(BytesTrieBuilderError::EmptyBuilder),
            Some(root) => {
                let mut tree: BytesTrieNodeTree = BytesTrieNodeTree {
                    graph,
                    root,
                    build_mode,
                    registry: std::collections::HashMap::new(),
                };
                proof {
                    lemma_dynamic_wf(tree.graph.nodes@, tree.graph.strings@, root as int);
                    assert(tree.shape().kept =~= Set::<usize>::empty());
                }
                let registered: usize = tree.register(root);
                tree.root = registered;
                Ok(tree)
            },
        }
    }
}

impl BytesTrieWriter {
    /// The writer has a graph that is ready to be written, and nothing is
    /// numbered or written.
    pub open spec fn fresh(&self) -> bool {
        &&& final_ok(self.nodes(), self.strings(), self.root as int)
        &&& node_trie(self.nodes(), self.strings(), self.root as int).wf()
        &&& node_trie(self.nodes(), self.strings(), self.root as int).count() <= MAX_LOAD
        &&& self.offsets@.len() == self.nodes().len()
        &&& self.first_edges@.len() == self.nodes().len()
        &&& forall|x: int| 0 <= x < self.offsets@.len() ==> #[trigger] self.offsets@[x] == 0
        &&& self.bytes@.len() == 0
    }

    /// All nodes under the root are numbered, and nothing is written.
    pub open spec fn numbered(&self) -> bool {
        &&& final_ok(self.nodes(), self.strings(), self.root as int)
        &&& node_trie(self.nodes(), self.strings(), self.root as int).wf()
        &&& node_trie(self.nodes(), self.strings(), self.root as int).count() <= MAX_LOAD
        &&& marks_ok(self.nodes(), self.strings(), self.offsets@, self.first_edges@)
        &&& self.offsets@[self.root as int] != 0
        &&& self.bytes@.len() == 0
    }

    /// Takes the graph over to write it.
    pub fn from_node_tree(tree: BytesTrieNodeTree) -> (r: Result<Self, BytesTrieBuilderError>)
        requires
            tree.ready(tree.root),
            tree.trie(tree.root).wf(),
            tree.trie(tree.root).count() <= MAX_LOAD,
        ensures
            r.is_ok(),
            r.unwrap().fresh(),
            r.unwrap().nodes() == tree.graph.nodes@,
            r.unwrap().strings() == tree.graph.strings@,
            r.unwrap().root == tree.root,
            r.unwrap().marks() == (Marks { offs: no_numbers(tree.shape().nodes), firsts: no_numbers(
                tree.shape().nodes,
            ) }),
    {
        let BytesTrieNodeTree { graph, root, build_mode: _, registry: _ } = tree;
        let count: usize = graph.nodes.len();
        let mut offsets: Vec<i32> = Vec::with_capacity(count);
        let mut first_edges: Vec<i32> = Vec::with_capacity(count);
        let mut i: usize = 0;
        while i < count
            invariant
                i <= count,
                offsets@.len() == i,
                first_edges@.len() == i,
                forall|x: int| 0 <= x < i ==> #[trigger] offsets@[x] == 0,
                forall|x: int| 0 <= x < i ==> #[trigger] first_edges@[x] == 0,
            decreases count - i,
        {
            offsets.push(0);
            first_edges.push(0);
            i = i + 1;
        }
        proof {
            assert(offsets@ =~= no_numbers(tree.shape().nodes));
            assert(first_edges@ =~= no_numbers(tree.shape().nodes));
        }
        Ok(BytesTrieWriter { graph, root, offsets, first_edges, bytes: Vec::new() })
    }

    /// Numbers all nodes from the root on, rightmost edges first.
    pub fn number_edges(&mut self)
        requires
            old(self).fresh(),
        ensures
            final(self).numbered(),
            final(self).same_graph(old(self)),
            final(self).marks() == numbered(
                old(self).views(),
                old(self).marks(),
                old(self).root as int,
                -1i32,
            ).0,
    {
        proof {
            assert(marks_ok(self.nodes(), self.strings(), self.offsets@, self.first_edges@));
        }
        let root: usize = self.root;
        self.mark_right_edges_first(root, -1);
    }

    /// Writes all nodes and returns the bytes of the trie. Looking a key
    /// up in them gives what the trie of the root holds for the key.
    pub fn into_bytes(self) -> (r: Vec<u8>)
        requires
            self.numbered(),
        ensures
            forall|key: Seq<u8>| #[trigger]
                lookup(r@, key) == node_trie(self.nodes(), self.strings(), self.root as int).get(
                    key,
                ),
            all_entries(r@) == with_values(
                entries(
                    node_trie(self.nodes(), self.strings(), self.root as int),
                    Seq::<u8>::empty(),
                ),
            ),
            r@ == wrote(
                self.views(),
                self.strings(),
                self.first_edges@,
                self.out(),
                self.root as int,
            ).bytes.reverse(),
    {
        let mut writer: BytesTrieWriter = self;
        let ghost en = writer.offsets@;
        let ghost nodes = writer.nodes();
        let ghost strings = writer.strings();
        let root: usize = writer.root;
        proof {
            reveal(written_ok);
            assert(written_ok(nodes, strings, en, en, writer.first_edges@, writer.bytes@));
        }
        writer.write(root, Ghost(en));
        proof {
            lemma_written_node(
                nodes,
                strings,
                writer.offsets@,
                en,
                writer.first_edges@,
                writer.bytes@,
                root as int,
            );
        }
        let written: Vec<u8> = writer.bytes;
        let mut r: Vec<u8> = Vec::with_capacity(written.len());
        let mut i: usize = written.len();
        while i > 0
            invariant
                i <= written@.len(),
                r@.len() == written@.len() - i,
                forall|m: int| 0 <= m < r@.len() ==> #[trigger] r@[m] == written@[written@.len() - 1 - m],
            decreases i,
        {
            i = i - 1;
            r.push(written[i]);
        }
        proof {
            assert(r@ =~= tail(written@, written@.len() as int));
            assert(r@ =~= written@.reverse());
            assert forall|key: Seq<u8>| #[trigger]
                lookup(r@, key) == node_trie(nodes, strings, root as int).get(key) by {
                lemma_start_lookup(r@, nodes, strings, root as int, key);
            }
            lemma_start_entries(r@, nodes, strings, root as int, Seq::<u8>::empty());
        }
        r
    }
}

/// A fast build and a small build iterate alike: where the bytes of two
/// tries list the same keys with the same values, iteration over the one
/// yields the same entries in the same order as iteration over the other.
pub proof fn lemma_builds_iterate_alike(fast: Seq<u8>, small: Seq<u8>, m: Map<Seq<u8>, i32>)
    requires
        is_listing(all_entries(fast), m),
        is_listing(all_entries(small), m),
    ensures
        all_entries(fast) == all_entries(small),
{
    lemma_listing_unique(all_entries(fast), all_entries(small), m);
}

} // verus!
