//! The mathematical trie that builder and reader agree on.
//!
//! A [`Trie`] is a tree whose edges carry one byte each. The edges that leave
//! a node are kept in ascending order of their bytes. The key of a node is
//! the sequence of bytes on the way from the root to it.

use vstd::prelude::*;

verus! {

/// A node of the mathematical trie: the value of the key that ends here, and
/// the outgoing edges with the sub-tries they lead to.
pub struct Trie {
    pub value: Option<i32>,
    pub labels: Seq<u8>,
    pub kids: Seq<Trie>,
}

/// The trie that holds `v` for the empty key and nothing else.
pub open spec fn leaf(v: i32) -> Trie {
    Trie { value: Some(v), labels: seq![], kids: seq![] }
}

/// The trie that leads through `bytes` to `x`.
pub open spec fn chain(bytes: Seq<u8>, x: Trie) -> Trie
    decreases bytes.len(),
{
    if bytes.len() == 0 {
        x
    } else {
        Trie { value: None, labels: seq![bytes[0]], kids: seq![chain(bytes.skip(1), x)] }
    }
}

/// The trie that holds `value` for the empty key and leads through `bytes`,
/// which is not empty, to `x`.
pub open spec fn lin(value: Option<i32>, bytes: Seq<u8>, x: Trie) -> Trie
    recommends
        bytes.len() > 0,
{
    Trie { value, labels: seq![bytes[0]], kids: seq![chain(bytes.skip(1), x)] }
}

/// Tells whether `labels` is strictly ascending.
pub open spec fn ascending(labels: Seq<u8>) -> bool {
    forall|i: int, j: int| 0 <= i < j < labels.len() ==> labels[i] < labels[j]
}

/// The number of elements at the start of `labels` that are below `c`; in
/// an ascending sequence, the place where `c` stands or belongs.
pub open spec fn lower_bound(labels: Seq<u8>, c: u8) -> int
    decreases labels.len(),
{
    if labels.len() == 0 {
        0
    } else if labels.last() < c {
        labels.len() as int
    } else {
        lower_bound(labels.drop_last(), c)
    }
}

impl Trie {
    /// Every node has as many edges as sub-tries, in strictly ascending
    /// order of their bytes.
    pub open spec fn wf(self) -> bool
        decreases self,
    {
        &&& self.labels.len() == self.kids.len()
        &&& ascending(self.labels)
        &&& forall|i: int| 0 <= i < self.kids.len() ==> (#[trigger] self.kids[i]).wf()
    }

    /// The value stored for `key`.
    pub open spec fn get(self, key: Seq<u8>) -> Option<i32>
        decreases key.len(),
    {
        if key.len() == 0 {
            self.value
        } else {
            let j = lower_bound(self.labels, key[0]);
            if j < self.labels.len() && j < self.kids.len() && self.labels[j] == key[0] {
                self.kids[j].get(key.skip(1))
            } else {
                None
            }
        }
    }

    /// The trie with `v` stored for `key`, which had no value before.
    pub open spec fn insert(self, key: Seq<u8>, v: i32) -> Trie
        decreases key.len(),
    {
        if key.len() == 0 {
            Trie { value: Some(v), ..self }
        } else {
            let j = lower_bound(self.labels, key[0]);
            if j < self.labels.len() && j < self.kids.len() && self.labels[j] == key[0] {
                Trie { kids: self.kids.update(j, self.kids[j].insert(key.skip(1), v)), ..self }
            } else {
                Trie {
                    labels: self.labels.insert(j, key[0]),
                    kids: self.kids.insert(j, chain(key.skip(1), leaf(v))),
                    ..self
                }
            }
        }
    }
}

/// In a sequence of one element, `c` belongs after it or in its place.
pub proof fn lemma_lower_bound_one(b: u8, c: u8)
    ensures
        lower_bound(seq![b], c) == if b < c {
            1int
        } else {
            0int
        },
{
    assert(seq![b].drop_last() =~= Seq::<u8>::empty());
    reveal_with_fuel(lower_bound, 2);
}

/// The keys of a trie with their values.
pub open spec fn map_of(t: Trie) -> Map<Seq<u8>, i32> {
    Map::new(|k: Seq<u8>| t.get(k).is_some(), |k: Seq<u8>| t.get(k).unwrap())
}

/// What a map holds for a key, if anything.
pub open spec fn map_get(m: Map<Seq<u8>, i32>, key: Seq<u8>) -> Option<i32> {
    if m.contains_key(key) {
        Some(m[key])
    } else {
        None
    }
}

/// `lower_bound` lies within the sequence.
pub proof fn lemma_lower_bound_range(labels: Seq<u8>, c: u8)
    ensures
        0 <= lower_bound(labels, c) <= labels.len(),
    decreases labels.len(),
{
    if labels.len() > 0 && !(labels.last() < c) {
        lemma_lower_bound_range(labels.drop_last(), c);
    }
}

/// In an ascending sequence, `lower_bound` is the one index with only
/// smaller elements before it and no smaller element from it on.
pub proof fn lemma_lower_bound_unique(labels: Seq<u8>, c: u8, i: int)
    requires
        ascending(labels),
        0 <= i <= labels.len(),
        forall|j: int| 0 <= j < i ==> labels[j] < c,
        i < labels.len() ==> labels[i] >= c,
    ensures
        lower_bound(labels, c) == i,
    decreases labels.len(),
{
    if labels.len() > 0 {
        if labels.last() < c {
            if i < labels.len() {
                assert(labels[i] <= labels.last());
            }
        } else {
            lemma_lower_bound_unique(labels.drop_last(), c, i);
        }
    }
}

/// In an ascending sequence, everything before `lower_bound` is smaller
/// than `c` and nothing from it on is.
pub proof fn lemma_lower_bound_splits(labels: Seq<u8>, c: u8)
    requires
        ascending(labels),
    ensures
        0 <= lower_bound(labels, c) <= labels.len(),
        forall|j: int| 0 <= j < lower_bound(labels, c) ==> labels[j] < c,
        forall|j: int| lower_bound(labels, c) <= j < labels.len() ==> labels[j] >= c,
    decreases labels.len(),
{
    if labels.len() > 0 {
        if labels.last() < c {
            assert forall|j: int| 0 <= j < labels.len() implies labels[j] < c by {
                assert(labels[j] <= labels.last());
            }
        } else {
            lemma_lower_bound_splits(labels.drop_last(), c);
            assert forall|j: int| lower_bound(labels, c) <= j < labels.len() implies labels[j]
                >= c by {
                if j < labels.len() - 1 {
                    assert(labels.drop_last()[j] >= c);
                }
            }
            assert forall|j: int| 0 <= j < lower_bound(labels, c) implies labels[j] < c by {
                assert(labels.drop_last()[j] < c);
            }
        }
    }
}

/// A chain holds a value for a key exactly where its end does for the rest
/// of the key after the chain's bytes.
pub proof fn lemma_chain_get(bytes: Seq<u8>, x: Trie, key: Seq<u8>)
    ensures
        chain(bytes, x).get(key) == if key.len() >= bytes.len() && key.take(bytes.len() as int)
            == bytes {
            x.get(key.skip(bytes.len() as int))
        } else {
            None
        },
    decreases bytes.len(),
{
    if bytes.len() == 0 {
        assert(key.take(0) =~= bytes);
        assert(key.skip(0) =~= key);
    } else {
        let t = chain(bytes, x);
        if key.len() > 0 {
            lemma_lower_bound_one(bytes[0], key[0]);
            assert(t.labels =~= seq![bytes[0]]);
            if key[0] == bytes[0] {
                lemma_chain_get(bytes.skip(1), x, key.skip(1));
                let n = bytes.len() as int;
                if key.len() >= n {
                    assert(key.skip(1).skip(n - 1) =~= key.skip(n));
                    if key.take(n) == bytes {
                        assert(key.skip(1).take(n - 1) =~= bytes.skip(1)) by {
                            assert forall|i: int| 0 <= i < n - 1 implies key.skip(1).take(n - 1)[i]
                                == bytes.skip(1)[i] by {
                                assert(key.take(n)[i + 1] == bytes[i + 1]);
                            }
                        }
                    } else {
                        if key.skip(1).take(n - 1) == bytes.skip(1) {
                            assert(key.take(n) =~= bytes) by {
                                assert forall|i: int| 0 <= i < n implies key.take(n)[i]
                                    == bytes[i] by {
                                    if i > 0 {
                                        assert(key.skip(1).take(n - 1)[i - 1] == bytes.skip(1)[i
                                            - 1]);
                                    }
                                }
                            }
                        }
                    }
                }
            } else {
                if key.len() >= bytes.len() && key.take(bytes.len() as int) == bytes {
                    assert(key.take(bytes.len() as int)[0] == bytes[0]);
                }
            }
        }
    }
}

/// A linear stretch holds its own value for the empty key, and for another
/// key what its end holds for the rest of the key after the stretch.
pub proof fn lemma_lin_get(value: Option<i32>, bytes: Seq<u8>, x: Trie, key: Seq<u8>)
    requires
        bytes.len() > 0,
    ensures
        lin(value, bytes, x).get(key) == if key.len() == 0 {
            value
        } else if key.len() >= bytes.len() && key.take(bytes.len() as int) == bytes {
            x.get(key.skip(bytes.len() as int))
        } else {
            None
        },
{
    if key.len() > 0 {
        let t = lin(value, bytes, x);
        lemma_chain_get(bytes, x, key);
        lemma_lower_bound_one(bytes[0], key[0]);
        assert(t.labels =~= seq![bytes[0]]);
        assert(chain(bytes, x).labels =~= seq![bytes[0]]);
        assert(chain(bytes, x).kids =~= t.kids);
    }
}

/// A chain is well-formed where its end is.
pub proof fn lemma_chain_wf(bytes: Seq<u8>, x: Trie)
    requires
        x.wf(),
    ensures
        chain(bytes, x).wf(),
    decreases bytes.len(),
{
    if bytes.len() > 0 {
        lemma_chain_wf(bytes.skip(1), x);
    }
}

/// Two sequences with the same first element and the same rest are equal.
pub proof fn lemma_seq_by_head(a: Seq<u8>, b: Seq<u8>)
    requires
        a.len() > 0,
        b.len() > 0,
        a[0] == b[0],
        a.skip(1) == b.skip(1),
    ensures
        a == b,
{
    let ra = a.skip(1);
    let rb = b.skip(1);
    assert(ra.len() == a.len() - 1);
    assert(rb.len() == b.len() - 1);
    assert forall|i: int| 0 <= i < a.len() implies a[i] == b[i] by {
        if i > 0 {
            assert(ra[i - 1] == a[i]);
            assert(rb[i - 1] == b[i]);
        }
    }
    assert(a =~= b);
}

/// Inserting a key that has no value yet keeps the trie well-formed, stores
/// the value for that key, and changes the value of no other key.
pub proof fn lemma_insert_get(t: Trie, key: Seq<u8>, v: i32, other: Seq<u8>)
    requires
        t.wf(),
        t.get(key).is_none(),
    ensures
        t.insert(key, v).wf(),
        t.insert(key, v).get(other) == if other == key {
            Some(v)
        } else {
            t.get(other)
        },
    decreases key.len(),
{
    let r = t.insert(key, v);
    if key.len() == 0 {
        if other.len() == 0 {
            assert(other =~= key);
        }
    } else {
        let c = key[0];
        let j = lower_bound(t.labels, c);
        lemma_lower_bound_splits(t.labels, c);
        if j < t.labels.len() && t.labels[j] == c {
            lemma_insert_get(t.kids[j], key.skip(1), v, other.skip(1));
            assert(r.wf()) by {
                assert forall|i: int| 0 <= i < r.kids.len() implies (#[trigger] r.kids[i]).wf() by {
                    if i != j {
                        assert(t.kids[i].wf());
                    }
                }
            }
            if other.len() > 0 {
                if other[0] == c {
                    if other.skip(1) == key.skip(1) {
                        lemma_seq_by_head(other, key);
                    }
                    assert(r.get(other) == r.kids[j].get(other.skip(1)));
                } else {
                    let oj = lower_bound(t.labels, other[0]);
                    lemma_lower_bound_splits(t.labels, other[0]);
                    assert(oj != j || !(oj < t.labels.len() && t.labels[oj] == other[0]));
                }
            }
        } else {
            let nl = t.labels.insert(j, c);
            assert(ascending(nl)) by {
                assert forall|a: int, b: int| 0 <= a < b < nl.len() implies nl[a] < nl[b] by {
                    if a < j && b > j {
                        assert(t.labels[a] < c);
                        assert(t.labels[b - 1] >= c);
                    } else if a < j && b == j {
                        assert(t.labels[a] < c);
                    } else if a == j {
                        assert(t.labels[b - 1] >= c);
                        assert(t.labels[b - 1] != c) by {
                            assert(t.labels[j] <= t.labels[b - 1]);
                        }
                    } else if b < j {
                        assert(t.labels[a] < t.labels[b]);
                    } else {
                        assert(t.labels[a - 1] < t.labels[b - 1]);
                    }
                }
            }
            lemma_chain_wf(key.skip(1), leaf(v));
            assert(r.wf()) by {
                assert forall|i: int| 0 <= i < r.kids.len() implies (#[trigger] r.kids[i]).wf() by {
                    if i < j {
                        assert(t.kids[i].wf());
                    } else if i > j {
                        assert(t.kids[i - 1].wf());
                    }
                }
            }
            if other.len() > 0 {
                let oc = other[0];
                let oj = lower_bound(t.labels, oc);
                lemma_lower_bound_splits(t.labels, oc);
                if oc == c {
                    lemma_lower_bound_unique(nl, oc, j);
                    lemma_chain_get(key.skip(1), leaf(v), other.skip(1));
                    let n = key.len() - 1;
                    assert(r.get(other) == chain(key.skip(1), leaf(v)).get(other.skip(1)));
                    assert(t.get(other).is_none());
                    if other.len() - 1 >= n && other.skip(1).take(n) == key.skip(1) {
                        if other.skip(1).skip(n).len() == 0 {
                            assert(other.skip(1).take(n) =~= other.skip(1));
                            lemma_seq_by_head(other, key);
                        } else {
                            assert(other != key);
                            assert(leaf(v).get(other.skip(1).skip(n)).is_none());
                        }
                    } else {
                        if other == key {
                            assert(other.skip(1).take(n) =~= key.skip(1));
                        }
                    }
                } else {
                    assert(other != key);
                    if oc < c {
                        assert(oj <= j) by {
                            if oj > j {
                                assert(t.labels[j] < oc);
                            }
                        }
                        assert forall|m: int| 0 <= m < oj implies nl[m] < oc by {
                            assert(t.labels[m] < oc);
                        }
                        lemma_lower_bound_unique(nl, oc, oj);
                        assert(r.get(other) == t.get(other));
                    } else {
                        assert(oj >= j) by {
                            if oj < j {
                                assert(t.labels[oj] < c);
                            }
                        }
                        assert forall|m: int| 0 <= m < oj + 1 implies nl[m] < oc by {
                            if m < j {
                                assert(t.labels[m] < c);
                            } else if m > j {
                                assert(t.labels[m - 1] < oc);
                            }
                        }
                        lemma_lower_bound_unique(nl, oc, oj + 1);
                        assert(r.get(other) == t.get(other));
                    }
                }
            }
        }
    }
}

/// Inserting below a common prefix: where the key starts with the first `i`
/// bytes of a linear stretch, the insertion happens at the end of those.
pub proof fn lemma_insert_below_prefix(
    value: Option<i32>,
    bytes: Seq<u8>,
    x: Trie,
    key: Seq<u8>,
    v: i32,
    i: int,
)
    requires
        1 <= i <= bytes.len(),
        i <= key.len(),
        key.take(i) == bytes.take(i),
    ensures
        lin(value, bytes, x).insert(key, v) == lin(
            value,
            bytes.take(i),
            chain(bytes.skip(i), x).insert(key.skip(i), v),
        ),
    decreases i,
{
    let t = lin(value, bytes, x);
    assert(key[0] == bytes[0]) by {
        assert(key.take(i)[0] == bytes.take(i)[0]);
    }
    lemma_lower_bound_one(bytes[0], key[0]);
    assert(t.labels =~= seq![bytes[0]]);
    let inner = chain(bytes.skip(1), x).insert(key.skip(1), v);
    assert(t.insert(key, v) == Trie {
        value,
        labels: seq![bytes[0]],
        kids: seq![chain(bytes.skip(1), x)].update(0, inner),
    });
    assert(seq![chain(bytes.skip(1), x)].update(0, inner) =~= seq![inner]);
    assert(bytes.take(i)[0] == bytes[0]);
    if i == 1 {
        assert(bytes.take(1).skip(1) =~= Seq::<u8>::empty());
    } else {
        let ks = key.skip(1).take(i - 1);
        let bs = bytes.skip(1).take(i - 1);
        assert(ks =~= bs) by {
            assert forall|m: int| 0 <= m < i - 1 implies #[trigger] ks[m] == bs[m] by {
                assert(key.take(i)[m + 1] == bytes.take(i)[m + 1]);
                assert(key.take(i)[m + 1] == key[m + 1]);
                assert(bytes.take(i)[m + 1] == bytes[m + 1]);
                assert(ks[m] == key.skip(1)[m]);
                assert(bs[m] == bytes.skip(1)[m]);
            }
        }
        lemma_insert_below_prefix(None, bytes.skip(1), x, key.skip(1), v, i - 1);
        assert(chain(bytes.skip(1), x) == lin(None, bytes.skip(1), x));
        assert(bytes.skip(1).skip(i - 1) =~= bytes.skip(i));
        assert(key.skip(1).skip(i - 1) =~= key.skip(i));
        assert(bytes.skip(1).take(i - 1) =~= bytes.take(i).skip(1));
        let z = chain(bytes.skip(i), x).insert(key.skip(i), v);
        assert(lin(None, bytes.skip(1).take(i - 1), z) == chain(bytes.take(i).skip(1), z));
    }
}

/// A chain through `a + b` is a chain through `a` to a chain through `b`.
pub proof fn lemma_chain_concat(a: Seq<u8>, b: Seq<u8>, x: Trie)
    ensures
        chain(a + b, x) == chain(a, chain(b, x)),
    decreases a.len(),
{
    if a.len() == 0 {
        assert(a + b =~= b);
    } else {
        lemma_chain_concat(a.skip(1), b, x);
        assert((a + b).skip(1) =~= a.skip(1) + b);
    }
}

/// The number of nodes in the first `n` of the tries `kids`.
pub open spec fn count_first(kids: Seq<Trie>, n: int) -> nat
    decreases kids, n,
{
    if n <= 0 || n > kids.len() {
        0
    } else {
        count_first(kids, n - 1) + kids[n - 1].count()
    }
}

/// The number of nodes in all of the tries `kids`.
pub open spec fn count_all(kids: Seq<Trie>) -> nat {
    count_first(kids, kids.len() as int)
}

impl Trie {
    /// The number of nodes of the trie.
    pub open spec fn count(self) -> nat
        decreases self,
    {
        1 + count_first(self.kids, self.kids.len() as int)
    }
}

/// The count of the first `n` tries depends on those `n` tries only.
pub proof fn lemma_count_first_same(a: Seq<Trie>, b: Seq<Trie>, n: int)
    requires
        0 <= n <= a.len(),
        n <= b.len(),
        forall|j: int| 0 <= j < n ==> a[j] == b[j],
    ensures
        count_first(a, n) == count_first(b, n),
    decreases n,
{
    if n > 0 {
        lemma_count_first_same(a, b, n - 1);
    }
}

/// The nodes of two sequences of tries together are those of the one and
/// those of the other.
pub proof fn lemma_count_concat(a: Seq<Trie>, b: Seq<Trie>, n: int)
    requires
        0 <= n <= b.len(),
    ensures
        count_first(a + b, a.len() + n) == count_all(a) + count_first(b, n),
    decreases n,
{
    if n == 0 {
        lemma_count_first_same(a + b, a, a.len() as int);
    } else {
        lemma_count_concat(a, b, n - 1);
        assert((a + b)[a.len() + n - 1] == b[n - 1]);
    }
}

/// Every trie has a node.
pub proof fn lemma_count_positive(t: Trie)
    ensures
        t.count() >= 1,
{
}

/// The first `n` tries have `n` nodes or more.
pub proof fn lemma_count_first_at_least(kids: Seq<Trie>, n: int)
    requires
        0 <= n <= kids.len(),
    ensures
        count_first(kids, n) >= n,
    decreases n,
{
    if n > 0 {
        lemma_count_first_at_least(kids, n - 1);
        lemma_count_positive(kids[n - 1]);
    }
}

/// A chain adds one node for each of its bytes.
pub proof fn lemma_chain_count(bytes: Seq<u8>, x: Trie)
    ensures
        chain(bytes, x).count() == bytes.len() + x.count(),
    decreases bytes.len(),
{
    if bytes.len() > 0 {
        lemma_chain_count(bytes.skip(1), x);
        let t = chain(bytes, x);
        assert(t.kids.len() == 1);
        assert(count_first(t.kids, 1) == count_first(t.kids, 0) + t.kids[0].count());
    }
}

/// A linear stretch has one node for each of its bytes.
pub proof fn lemma_lin_count(value: Option<i32>, bytes: Seq<u8>, x: Trie)
    requires
        bytes.len() > 0,
    ensures
        lin(value, bytes, x).count() == bytes.len() + x.count(),
{
    lemma_chain_count(bytes.skip(1), x);
    let t = lin(value, bytes, x);
    assert(t.kids.len() == 1);
    assert(count_first(t.kids, 1) == count_first(t.kids, 0) + t.kids[0].count());
}

/// Replacing one trie changes the count by the difference of the two.
pub proof fn lemma_count_update(kids: Seq<Trie>, j: int, y: Trie, n: int)
    requires
        0 <= j < kids.len(),
        0 <= n <= kids.len(),
    ensures
        count_first(kids.update(j, y), n) == if j < n {
            count_first(kids, n) - kids[j].count() + y.count()
        } else {
            count_first(kids, n) as int
        },
    decreases n,
{
    if n > 0 {
        lemma_count_update(kids, j, y, n - 1);
    }
}

/// A trie put in between adds its nodes.
pub proof fn lemma_count_insert(kids: Seq<Trie>, j: int, y: Trie, n: int)
    requires
        0 <= j <= kids.len(),
        0 <= n <= kids.len() + 1,
    ensures
        count_first(kids.insert(j, y), n) == if j < n {
            count_first(kids, n - 1) + y.count()
        } else {
            count_first(kids, n)
        },
    decreases n,
{
    if n > 0 {
        lemma_count_insert(kids, j, y, n - 1);
        let k2 = kids.insert(j, y);
        if n - 1 < j {
            assert(k2[n - 1] == kids[n - 1]);
        } else if n - 1 == j {
            assert(k2[n - 1] == y);
        } else {
            assert(k2[n - 1] == kids[n - 2]);
        }
    }
}

/// Inserting a key adds one node for each byte of the key at most.
pub proof fn lemma_insert_count(t: Trie, key: Seq<u8>, v: i32)
    requires
        t.wf(),
    ensures
        t.insert(key, v).count() <= t.count() + key.len(),
    decreases key.len(),
{
    if key.len() > 0 {
        let j = lower_bound(t.labels, key[0]);
        lemma_lower_bound_range(t.labels, key[0]);
        let n = t.kids.len() as int;
        if j < t.labels.len() && t.labels[j] == key[0] {
            let y = t.kids[j].insert(key.skip(1), v);
            lemma_insert_count(t.kids[j], key.skip(1), v);
            lemma_count_update(t.kids, j, y, n);
        } else {
            let y = chain(key.skip(1), leaf(v));
            lemma_chain_count(key.skip(1), leaf(v));
            assert(leaf(v).count() == 1);
            lemma_count_insert(t.kids, j, y, n + 1);
        }
    }
}

} // verus!
