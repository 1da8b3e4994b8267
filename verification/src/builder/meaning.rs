//! What the written bytes mean: looking a key up in the bytes of a node
//! gives what the trie of the node holds for the key.

use vstd::prelude::*;
use crate::builder::finalized::{branch_ok, final_ok, lemma_branch_shape, lemma_list_kids};
use crate::builder::graph::starts_with;
use crate::builder::layout::{
    after_value, branch_encodes, list_encodes, start_encodes, value_in_front,
};
use crate::builder::node::{node_kids, node_labels, node_trie, Node};
use crate::encoding::{
    delta_of, delta_width, encode_value, lemma_value_round_trip, value_of, value_width,
    MIN_LINEAR_MATCH, MIN_VALUE_LEAD,
};
use crate::listing::{entries, kid_entries, own_entry, with_values};
use crate::model::{
    ascending, chain, leaf, lemma_lin_get, lemma_lower_bound_splits, lemma_lower_bound_unique,
    lower_bound, Trie,
};
use crate::trie::format::{branch_entries, branch_lookup, entries_from, lookup};

verus! {

/// What the edges `labels` to the tries `kids` hold for the key `key`,
/// which is not empty.
pub open spec fn pick(labels: Seq<u8>, kids: Seq<Trie>, key: Seq<u8>) -> Option<i32> {
    let j = lower_bound(labels, key[0]);
    if j < labels.len() && j < kids.len() && labels[j] == key[0] {
        kids[j].get(key.skip(1))
    } else {
        None
    }
}

/// What the edges from `j` on hold for `key`, found by going through them
/// one by one.
pub open spec fn scan(labels: Seq<u8>, kids: Seq<Trie>, j: int, key: Seq<u8>) -> Option<i32>
    decreases labels.len() - j,
{
    if j < 0 || j >= labels.len() || j >= kids.len() {
        None
    } else if labels[j] == key[0] {
        kids[j].get(key.skip(1))
    } else {
        scan(labels, kids, j + 1, key)
    }
}

/// Going through ascending edges from `j` on finds what `pick` finds, where
/// the edges before `j` are below the first byte of the key.
pub proof fn lemma_scan_pick(labels: Seq<u8>, kids: Seq<Trie>, j: int, key: Seq<u8>)
    requires
        ascending(labels),
        labels.len() == kids.len(),
        key.len() > 0,
        0 <= j <= labels.len(),
        forall|m: int| 0 <= m < j ==> labels[m] < key[0],
    ensures
        scan(labels, kids, j, key) == pick(labels, kids, key),
    decreases labels.len() - j,
{
    let c = key[0];
    lemma_lower_bound_splits(labels, c);
    let lb = lower_bound(labels, c);
    if j >= labels.len() {
        if lb < labels.len() {
            assert(labels[lb] < c);
        }
    } else if labels[j] == c {
        lemma_lower_bound_unique(labels, c, j);
    } else if labels[j] < c {
        lemma_scan_pick(labels, kids, j + 1, key);
    } else {
        // No edge from `j` on has the byte.
        lemma_lower_bound_unique(labels, c, j);
        lemma_scan_none(labels, kids, j, key);
    }
}

/// Going through ascending edges finds nothing where the first of them is
/// above the first byte of the key.
pub proof fn lemma_scan_none(labels: Seq<u8>, kids: Seq<Trie>, j: int, key: Seq<u8>)
    requires
        ascending(labels),
        key.len() > 0,
        0 <= j <= labels.len(),
        j < labels.len() ==> labels[j] > key[0],
    ensures
        scan(labels, kids, j, key).is_none(),
    decreases labels.len() - j,
{
    if j < labels.len() && j < kids.len() {
        if j + 1 < labels.len() {
            assert(labels[j] < labels[j + 1]);
        }
        lemma_scan_none(labels, kids, j + 1, key);
    }
}

/// The edges of two parts of a branch together hold for a key what the
/// part holds on whose side of the first byte of the second part the key
/// begins.
pub proof fn lemma_pick_concat(
    la: Seq<u8>,
    ka: Seq<Trie>,
    lg: Seq<u8>,
    kg: Seq<Trie>,
    key: Seq<u8>,
)
    requires
        ascending(la + lg),
        la.len() == ka.len(),
        lg.len() == kg.len(),
        lg.len() > 0,
        key.len() > 0,
    ensures
        pick(la + lg, ka + kg, key) == if key[0] < lg[0] {
            pick(la, ka, key)
        } else {
            pick(lg, kg, key)
        },
        ascending(la),
        ascending(lg),
{
    let all = la + lg;
    let c = key[0];
    let n = la.len() as int;
    assert(ascending(la)) by {
        assert forall|a: int, b: int| 0 <= a < b < la.len() implies la[a] < la[b] by {
            assert(all[a] < all[b]);
        }
    }
    assert(ascending(lg)) by {
        assert forall|a: int, b: int| 0 <= a < b < lg.len() implies lg[a] < lg[b] by {
            assert(all[n + a] < all[n + b]);
        }
    }
    lemma_lower_bound_splits(la, c);
    lemma_lower_bound_splits(lg, c);
    if c < lg[0] {
        let j = lower_bound(la, c);
        assert forall|m: int| j <= m < all.len() implies all[m] >= c by {
            if m >= n {
                assert(all[n] <= all[m]);
                assert(all[n] == lg[0]);
            }
        }
        lemma_lower_bound_unique(all, c, j);
        if j < n {
            assert(all[j] == la[j]);
            assert((ka + kg)[j] == ka[j]);
        } else {
            assert(all[j] == lg[0]);
        }
    } else {
        let j = lower_bound(lg, c);
        assert forall|m: int| 0 <= m < n + j implies all[m] < c by {
            if m < n {
                assert(all[m] < all[n]);
                assert(all[n] == lg[0]);
            } else {
                assert(all[m] == lg[m - n]);
            }
        }
        if n + j < all.len() {
            assert(all[n + j] == lg[j]);
            assert((ka + kg)[n + j] == kg[j]);
        }
        lemma_lower_bound_unique(all, c, n + j);
    }
}

/// Where a chain is well-formed, its end is.
pub proof fn lemma_chain_end_wf(bytes: Seq<u8>, x: Trie)
    requires
        chain(bytes, x).wf(),
    ensures
        x.wf(),
    decreases bytes.len(),
{
    if bytes.len() > 0 {
        let t = chain(bytes, x);
        assert(t.kids[0].wf());
        lemma_chain_end_wf(bytes.skip(1), x);
    }
}

/// Looking a key up in bytes that start with a final value gives the value
/// for the empty key and nothing for any other.
pub proof fn lemma_final_lookup(t: Seq<u8>, v: i32, key: Seq<u8>)
    requires
        starts_with(t, encode_value(v, true)),
    ensures
        lookup(t, key) == leaf(v).get(key),
{
    let e = encode_value(v, true);
    let rest = t.skip(e.len() as int);
    lemma_value_round_trip(v, true, rest);
    assert(t =~= e + rest);
    if key.len() > 0 {
        assert(lower_bound(Seq::<u8>::empty(), key[0]) == 0);
    }
}

/// Looking a key up in the bytes of a node at which reading can start
/// gives what the trie of the node holds for the key.
pub proof fn lemma_start_lookup(
    t: Seq<u8>,
    nodes: Seq<Node>,
    strings: Seq<u8>,
    i: int,
    key: Seq<u8>,
)
    requires
        final_ok(nodes, strings, i),
        start_encodes(t, nodes, strings, i),
        node_trie(nodes, strings, i).wf(),
    ensures
        lookup(t, key) == node_trie(nodes, strings, i).get(key),
    decreases i, 2int, 0int,
{
    let trie = node_trie(nodes, strings, i);
    match nodes[i] {
        Node::FinalValue(n) => {
            lemma_final_lookup(t, n.value, key);
        },
        Node::IntermediateValue(n) => {
            let e = encode_value(n.value, false);
            let rest = t.skip(e.len() as int);
            lemma_value_round_trip(n.value, false, rest);
            assert(t =~= e + rest);
            let below = node_trie(nodes, strings, n.next as int);
            assert(below.wf());
            lemma_start_lookup(rest, nodes, strings, n.next as int, key);
        },
        Node::LinearMatch(n) => {
            let u = after_value(t, n.value);
            lemma_value_front(t, n.value, key);
            let bytes = strings.subrange(n.string_offset as int, n.string_offset + n.length);
            let x = node_trie(nodes, strings, n.next as int);
            lemma_lin_get(n.value, bytes, x, key);
            assert(trie.kids[0].wf());
            lemma_chain_end_wf(bytes.skip(1), x);
            if key.len() > 0 {
                let len = n.length as int;
                if key.len() >= len && key.take(len) == bytes {
                    lemma_start_lookup(u.skip(1 + len), nodes, strings, n.next as int, key.skip(len));
                }
            }
        },
        Node::BranchHead(n) => {
            let u = after_value(t, n.value);
            lemma_value_front(t, n.value, key);
            lemma_branch_shape(nodes, strings, n.next as int);
            if key.len() > 0 {
                let labels = node_labels(nodes, n.next as int);
                let kids = node_kids(nodes, strings, n.next as int);
                assert forall|m: int| 0 <= m < kids.len() implies (#[trigger] kids[m]).wf() by {
                    assert(trie.kids[m].wf());
                }
                if n.length <= MIN_LINEAR_MATCH {
                    lemma_branch_lookup(u.skip(1), nodes, strings, n.next as int, key);
                } else {
                    lemma_branch_lookup(u.skip(2), nodes, strings, n.next as int, key);
                }
            }
        },
        _ => {},
    }
}

/// Looking a key up in bytes that may start with the value of a node: the
/// value is found for the empty key, and any other key is looked up behind
/// the value.
pub proof fn lemma_value_front(t: Seq<u8>, value: Option<i32>, key: Seq<u8>)
    requires
        value_in_front(t, value),
        after_value(t, value).len() > 0,
        after_value(t, value)[0] < MIN_VALUE_LEAD,
    ensures
        key.len() == 0 ==> lookup(t, key) == value,
        key.len() > 0 ==> lookup(t, key) == lookup(after_value(t, value), key),
{
    match value {
        Some(v) => {
            let e = encode_value(v, false);
            let rest = t.skip(e.len() as int);
            lemma_value_round_trip(v, false, rest);
            assert(t =~= e + rest);
        },
        None => {},
    }
}

/// Looking a key up in the bytes of a list or split node gives what its
/// edges hold for the key.
pub proof fn lemma_branch_lookup(
    t: Seq<u8>,
    nodes: Seq<Node>,
    strings: Seq<u8>,
    i: int,
    key: Seq<u8>,
)
    requires
        branch_ok(nodes, strings, i),
        branch_encodes(t, nodes, strings, i),
        key.len() > 0,
        ascending(node_labels(nodes, i)),
        forall|m: int|
            0 <= m < node_kids(nodes, strings, i).len() ==> (#[trigger] node_kids(
                nodes,
                strings,
                i,
            )[m]).wf(),
    ensures
        branch_lookup(t, node_labels(nodes, i).len() as int, key) == pick(
            node_labels(nodes, i),
            node_kids(nodes, strings, i),
            key,
        ),
    decreases i, 1int, 0int,
{
    lemma_branch_shape(nodes, strings, i);
    match nodes[i] {
        Node::SplitBranch(n) => {
            let lt = n.less_than as int;
            let ge = n.greater_or_equal as int;
            let la = node_labels(nodes, lt);
            let lg = node_labels(nodes, ge);
            let ka = node_kids(nodes, strings, lt);
            let kg = node_kids(nodes, strings, ge);
            lemma_branch_shape(nodes, strings, lt);
            lemma_branch_shape(nodes, strings, ge);
            lemma_pick_concat(la, ka, lg, kg, key);
            assert forall|m: int| 0 <= m < ka.len() implies (#[trigger] ka[m]).wf() by {
                assert((ka + kg)[m] == ka[m]);
                assert(node_kids(nodes, strings, i)[m].wf());
            }
            assert forall|m: int| 0 <= m < kg.len() implies (#[trigger] kg[m]).wf() by {
                assert((ka + kg)[ka.len() + m] == kg[m]);
                assert(node_kids(nodes, strings, i)[ka.len() + m].wf());
            }
            let w = delta_width(t[1]);
            let d = delta_of(t.skip(1));
            if key[0] < t[0] {
                lemma_branch_lookup(t.skip(1 + w + d), nodes, strings, lt, key);
            } else {
                lemma_branch_lookup(t.skip(1 + w), nodes, strings, ge, key);
            }
        },
        Node::ListBranch(n) => {
            lemma_list_lookup(t, nodes, strings, i, 0, key);
            lemma_scan_pick(node_labels(nodes, i), node_kids(nodes, strings, i), 0, key);
        },
        _ => {},
    }
}

/// Looking a key up in the bytes of the edges of a list node from the edge
/// `j` on gives what going through those edges finds.
pub proof fn lemma_list_lookup(
    t: Seq<u8>,
    nodes: Seq<Node>,
    strings: Seq<u8>,
    i: int,
    j: int,
    key: Seq<u8>,
)
    requires
        branch_ok(nodes, strings, i),
        nodes[i] is ListBranch,
        list_encodes(t, nodes, strings, i, j),
        key.len() > 0,
        forall|m: int|
            0 <= m < node_kids(nodes, strings, i).len() ==> (#[trigger] node_kids(
                nodes,
                strings,
                i,
            )[m]).wf(),
    ensures
        branch_lookup(t, nodes[i]->ListBranch_0.units@.len() - j, key) == scan(
            node_labels(nodes, i),
            node_kids(nodes, strings, i),
            j,
            key,
        ),
    decreases i, 0int, nodes[i]->ListBranch_0.units@.len() - j,
{
    let n = nodes[i]->ListBranch_0;
    let k = n.units@.len() as int;
    let kids = node_kids(nodes, strings, i);
    lemma_list_kids(nodes, strings, i, n.equal@, n.values@, k);
    assert(kids[j].wf());
    if j == k - 1 {
        if key[0] == t[0] {
            match n.equal@[j] {
                Some(c) => {
                    lemma_start_lookup(t.skip(1), nodes, strings, c as int, key.skip(1));
                },
                None => {
                    lemma_final_lookup(t.skip(1), n.values@[j], key.skip(1));
                },
            }
        }
    } else {
        let w = value_width(t[1]);
        let v = value_of(t.skip(1));
        lemma_list_lookup(t.skip(1 + w), nodes, strings, i, j + 1, key);
        match n.equal@[j] {
            Some(c) => {
                if key[0] == t[0] {
                    lemma_start_lookup(t.skip(1 + w + v), nodes, strings, c as int, key.skip(1));
                }
            },
            None => {
                let e = encode_value(n.values@[j], true);
                let rest = t.skip(1).skip(e.len() as int);
                lemma_value_round_trip(n.values@[j], true, rest);
                assert(t.skip(1) =~= e + rest);
                assert(t[1] == e[0]);
                if key[0] == t[0] {
                    if key.len() > 1 {
                        assert(lower_bound(Seq::<u8>::empty(), key.skip(1)[0]) == 0);
                    }
                }
            },
        }
    }
}

/// Values are given to the entries one by one.
pub proof fn lemma_with_values_concat(a: Seq<(Seq<u8>, i32)>, b: Seq<(Seq<u8>, i32)>)
    ensures
        with_values(a + b) == with_values(a) + with_values(b),
{
    assert(with_values(a + b) =~= with_values(a) + with_values(b));
}

/// The entries of a chain are those of its end, with the bytes of the chain
/// in their keys.
pub proof fn lemma_chain_entries(bytes: Seq<u8>, x: Trie, prefix: Seq<u8>)
    ensures
        entries(chain(bytes, x), prefix) == entries(x, prefix + bytes),
    decreases bytes.len(),
{
    if bytes.len() == 0 {
        assert(prefix + bytes =~= prefix);
    } else {
        let t = chain(bytes, x);
        lemma_chain_entries(bytes.skip(1), x, prefix.push(bytes[0]));
        assert(prefix.push(bytes[0]) + bytes.skip(1) =~= prefix + bytes);
        lemma_one_kid(t.labels, t.kids, prefix);
        assert(own_entry(t.value, prefix) + entries(t.kids[0], prefix.push(bytes[0]))
            =~= entries(t.kids[0], prefix.push(bytes[0])));
    }
}

/// The entries under one edge are those of the sub-trie under it.
pub proof fn lemma_one_kid(labels: Seq<u8>, kids: Seq<Trie>, prefix: Seq<u8>)
    requires
        labels.len() == 1,
        kids.len() == 1,
    ensures
        kid_entries(labels, kids, prefix, 0) == entries(kids[0], prefix.push(labels[0])),
{
    assert(kid_entries(labels, kids, prefix, 1) =~= Seq::<(Seq<u8>, i32)>::empty());
    assert(kid_entries(labels, kids, prefix, 0) =~= entries(kids[0], prefix.push(labels[0])));
}

/// The entries under the edges of two parts of a branch are those under
/// the first part and then those under the second.
pub proof fn lemma_kid_entries_concat(
    la: Seq<u8>,
    ka: Seq<Trie>,
    lg: Seq<u8>,
    kg: Seq<Trie>,
    prefix: Seq<u8>,
    j: int,
)
    requires
        la.len() == ka.len(),
        lg.len() == kg.len(),
        0 <= j <= la.len() + lg.len(),
    ensures
        kid_entries(la + lg, ka + kg, prefix, j) == if j <= la.len() {
            kid_entries(la, ka, prefix, j) + kid_entries(lg, kg, prefix, 0)
        } else {
            kid_entries(lg, kg, prefix, j - la.len())
        },
    decreases la.len() + lg.len() - j,
{
    let n = la.len() as int;
    if j < n + lg.len() {
        lemma_kid_entries_concat(la, ka, lg, kg, prefix, j + 1);
        if j < n {
            assert((la + lg)[j] == la[j] && (ka + kg)[j] == ka[j]);
            let first = entries(ka[j], prefix.push(la[j]));
            assert((first + kid_entries(la, ka, prefix, j + 1)) + kid_entries(lg, kg, prefix, 0)
                =~= first + (kid_entries(la, ka, prefix, j + 1) + kid_entries(
                lg,
                kg,
                prefix,
                0,
            )));
        } else {
            assert((la + lg)[j] == lg[j - n] && (ka + kg)[j] == kg[j - n]);
            if j == n {
                assert(kid_entries(la, ka, prefix, j) =~= Seq::<(Seq<u8>, i32)>::empty());
                assert(kid_entries(la, ka, prefix, j) + kid_entries(lg, kg, prefix, 0)
                    =~= kid_entries(lg, kg, prefix, 0));
            }
        }
    } else {
        if j == n {
            assert(kid_entries(la, ka, prefix, j) + kid_entries(lg, kg, prefix, 0)
                =~= kid_entries(lg, kg, prefix, 0));
        }
    }
}

/// Iteration over bytes that start with a final value yields the key so
/// far with the value.
pub proof fn lemma_final_entries(t: Seq<u8>, v: i32, prefix: Seq<u8>)
    requires
        starts_with(t, encode_value(v, true)),
    ensures
        entries_from(t, prefix, None) == with_values(entries(leaf(v), prefix)),
{
    let e = encode_value(v, true);
    let rest = t.skip(e.len() as int);
    lemma_value_round_trip(v, true, rest);
    assert(t =~= e + rest);
    let model = entries(leaf(v), prefix);
    assert(kid_entries(leaf(v).labels, leaf(v).kids, prefix, 0) =~= Seq::<(Seq<u8>, i32)>::empty());
    assert(model =~= seq![(prefix, v)]);
    assert(with_values(model) =~= seq![(prefix, Some(v))]);
}

/// Iteration over bytes that may start with the value of a node yields the
/// value for the key so far, and goes on behind the value.
pub proof fn lemma_value_front_entries(t: Seq<u8>, value: Option<i32>, prefix: Seq<u8>)
    requires
        value_in_front(t, value),
        after_value(t, value).len() > 0,
        after_value(t, value)[0] < MIN_VALUE_LEAD,
    ensures
        entries_from(t, prefix, None) == with_values(own_entry(value, prefix)) + entries_from(
            after_value(t, value),
            prefix,
            None,
        ),
{
    match value {
        Some(v) => {
            let e = encode_value(v, false);
            let rest = t.skip(e.len() as int);
            lemma_value_round_trip(v, false, rest);
            assert(t =~= e + rest);
            assert(with_values(own_entry(value, prefix)) =~= seq![(prefix, Some(v))]);
        },
        None => {
            assert(with_values(own_entry(value, prefix)) + entries_from(t, prefix, None)
                =~= entries_from(t, prefix, None));
        },
    }
}

/// Iteration over the bytes of a node at which reading can start yields
/// the entries of the trie of the node.
pub proof fn lemma_start_entries(
    t: Seq<u8>,
    nodes: Seq<Node>,
    strings: Seq<u8>,
    i: int,
    prefix: Seq<u8>,
)
    requires
        final_ok(nodes, strings, i),
        start_encodes(t, nodes, strings, i),
    ensures
        entries_from(t, prefix, None) == with_values(entries(node_trie(nodes, strings, i), prefix)),
    decreases i, 2int, 0int,
{
    let trie = node_trie(nodes, strings, i);
    match nodes[i] {
        Node::FinalValue(n) => {
            lemma_final_entries(t, n.value, prefix);
        },
        Node::IntermediateValue(n) => {
            let e = encode_value(n.value, false);
            let rest = t.skip(e.len() as int);
            lemma_value_round_trip(n.value, false, rest);
            assert(t =~= e + rest);
            let below = node_trie(nodes, strings, n.next as int);
            lemma_start_entries(rest, nodes, strings, n.next as int, prefix);
            assert(below.value.is_none());
            let under = kid_entries(below.labels, below.kids, prefix, 0);
            assert(entries(below, prefix) =~= under);
            assert(with_values(seq![(prefix, n.value)] + under) =~= seq![(prefix, Some(n.value))]
                + with_values(under));
        },
        Node::LinearMatch(n) => {
            let u = after_value(t, n.value);
            lemma_value_front_entries(t, n.value, prefix);
            let bytes = strings.subrange(n.string_offset as int, n.string_offset + n.length);
            let x = node_trie(nodes, strings, n.next as int);
            let len = n.length as int;
            lemma_start_entries(u.skip(1 + len), nodes, strings, n.next as int, prefix + bytes);
            lemma_chain_entries(bytes.skip(1), x, prefix.push(bytes[0]));
            assert(prefix.push(bytes[0]) + bytes.skip(1) =~= prefix + bytes);
            lemma_one_kid(trie.labels, trie.kids, prefix);
            lemma_with_values_concat(
                own_entry(n.value, prefix),
                kid_entries(trie.labels, trie.kids, prefix, 0),
            );
        },
        Node::BranchHead(n) => {
            let u = after_value(t, n.value);
            lemma_value_front_entries(t, n.value, prefix);
            lemma_branch_shape(nodes, strings, n.next as int);
            if n.length <= MIN_LINEAR_MATCH {
                lemma_branch_entries(u.skip(1), nodes, strings, n.next as int, prefix);
            } else {
                lemma_branch_entries(u.skip(2), nodes, strings, n.next as int, prefix);
            }
            lemma_with_values_concat(
                own_entry(n.value, prefix),
                kid_entries(trie.labels, trie.kids, prefix, 0),
            );
        },
        _ => {},
    }
}

/// Iteration over the bytes of a list or split node yields the entries
/// under its edges.
pub proof fn lemma_branch_entries(
    t: Seq<u8>,
    nodes: Seq<Node>,
    strings: Seq<u8>,
    i: int,
    prefix: Seq<u8>,
)
    requires
        branch_ok(nodes, strings, i),
        branch_encodes(t, nodes, strings, i),
    ensures
        branch_entries(t, node_labels(nodes, i).len() as int, prefix, None) == with_values(
            kid_entries(node_labels(nodes, i), node_kids(nodes, strings, i), prefix, 0),
        ),
    decreases i, 1int, 0int,
{
    lemma_branch_shape(nodes, strings, i);
    match nodes[i] {
        Node::SplitBranch(n) => {
            let lt = n.less_than as int;
            let ge = n.greater_or_equal as int;
            let la = node_labels(nodes, lt);
            let lg = node_labels(nodes, ge);
            let ka = node_kids(nodes, strings, lt);
            let kg = node_kids(nodes, strings, ge);
            lemma_branch_shape(nodes, strings, lt);
            lemma_branch_shape(nodes, strings, ge);
            let w = delta_width(t[1]);
            let d = delta_of(t.skip(1));
            lemma_branch_entries(t.skip(1 + w + d), nodes, strings, lt, prefix);
            lemma_branch_entries(t.skip(1 + w), nodes, strings, ge, prefix);
            lemma_kid_entries_concat(la, ka, lg, kg, prefix, 0);
            lemma_with_values_concat(
                kid_entries(la, ka, prefix, 0),
                kid_entries(lg, kg, prefix, 0),
            );
        },
        Node::ListBranch(n) => {
            lemma_list_entries(t, nodes, strings, i, 0, prefix);
        },
        _ => {},
    }
}

/// Iteration over the bytes of the edges of a list node from the edge `j`
/// on yields the entries under those edges.
pub proof fn lemma_list_entries(
    t: Seq<u8>,
    nodes: Seq<Node>,
    strings: Seq<u8>,
    i: int,
    j: int,
    prefix: Seq<u8>,
)
    requires
        branch_ok(nodes, strings, i),
        nodes[i] is ListBranch,
        list_encodes(t, nodes, strings, i, j),
    ensures
        branch_entries(t, nodes[i]->ListBranch_0.units@.len() - j, prefix, None) == with_values(
            kid_entries(node_labels(nodes, i), node_kids(nodes, strings, i), prefix, j),
        ),
    decreases i, 0int, nodes[i]->ListBranch_0.units@.len() - j,
{
    let n = nodes[i]->ListBranch_0;
    let k = n.units@.len() as int;
    let labels = node_labels(nodes, i);
    let kids = node_kids(nodes, strings, i);
    lemma_list_kids(nodes, strings, i, n.equal@, n.values@, k);
    let longer = prefix.push(n.units@[j]);
    let first = entries(kids[j], longer);
    let rest = kid_entries(labels, kids, prefix, j + 1);
    lemma_with_values_concat(first, rest);
    if j == k - 1 {
        assert(rest =~= Seq::<(Seq<u8>, i32)>::empty());
        assert(with_values(first) + with_values(rest) =~= with_values(first));
        match n.equal@[j] {
            Some(c) => {
                lemma_start_entries(t.skip(1), nodes, strings, c as int, longer);
            },
            None => {
                lemma_final_entries(t.skip(1), n.values@[j], longer);
            },
        }
    } else {
        let w = value_width(t[1]);
        let v = value_of(t.skip(1));
        lemma_list_entries(t.skip(1 + w), nodes, strings, i, j + 1, prefix);
        match n.equal@[j] {
            Some(c) => {
                lemma_start_entries(t.skip(1 + w + v), nodes, strings, c as int, longer);
            },
            None => {
                let e = encode_value(n.values@[j], true);
                let tail = t.skip(1).skip(e.len() as int);
                lemma_value_round_trip(n.values@[j], true, tail);
                assert(t.skip(1) =~= e + tail);
                assert(t[1] == e[0]);
                lemma_final_entries(t.skip(1), n.values@[j], longer);
                let model = entries(leaf(n.values@[j]), longer);
                assert(kid_entries(
                    leaf(n.values@[j]).labels,
                    leaf(n.values@[j]).kids,
                    longer,
                    0,
                ) =~= Seq::<(Seq<u8>, i32)>::empty());
                assert(model =~= seq![(longer, n.values@[j])]);
                assert(with_values(model) =~= seq![(longer, Some(n.values@[j]))]);
            },
        }
    }
}

} // verus!
