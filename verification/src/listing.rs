//! The entries of a trie in the order of their keys.

use vstd::prelude::*;
use crate::model::{
    ascending, lemma_lower_bound_splits, lemma_lower_bound_unique, lower_bound, map_get, Trie,
};

verus! {

/// Tells whether `a` comes before `b` in the order of keys: byte by byte,
/// and a key before every longer key that begins with it.
pub open spec fn lex_lt(a: Seq<u8>, b: Seq<u8>) -> bool
    decreases a.len(),
{
    if b.len() == 0 {
        false
    } else if a.len() == 0 {
        true
    } else if a[0] != b[0] {
        a[0] < b[0]
    } else {
        lex_lt(a.skip(1), b.skip(1))
    }
}

/// Tells whether the key `k` begins with `p`.
pub open spec fn begins_with(k: Seq<u8>, p: Seq<u8>) -> bool {
    p.len() <= k.len() && k.take(p.len() as int) == p
}

/// The keys of the entries `e` are in strictly ascending order.
pub open spec fn keys_ascend<V>(e: Seq<(Seq<u8>, V)>) -> bool {
    forall|i: int, j: int| 0 <= i < j < e.len() ==> lex_lt(#[trigger] e[i].0, #[trigger] e[j].0)
}

/// The entry of a node for its own key, where it has a value.
pub open spec fn own_entry(value: Option<i32>, prefix: Seq<u8>) -> Seq<(Seq<u8>, i32)> {
    match value {
        Some(v) => seq![(prefix, v)],
        None => Seq::<(Seq<u8>, i32)>::empty(),
    }
}

/// The entries under the edges from `j` on, in the order of the edges.
pub open spec fn kid_entries(labels: Seq<u8>, kids: Seq<Trie>, prefix: Seq<u8>, j: int) -> Seq<
    (Seq<u8>, i32),
>
    decreases kids, kids.len() - j,
{
    if j < 0 || j >= kids.len() || j >= labels.len() {
        Seq::<(Seq<u8>, i32)>::empty()
    } else {
        entries(kids[j], prefix.push(labels[j])) + kid_entries(labels, kids, prefix, j + 1)
    }
}

/// The entries of the trie `t`, whose root has the key `prefix`: every key
/// that has a value, with its value; the key of a node before the keys
/// under it, and those in the order of the edges.
pub open spec fn entries(t: Trie, prefix: Seq<u8>) -> Seq<(Seq<u8>, i32)>
    decreases t,
{
    own_entry(t.value, prefix) + kid_entries(t.labels, t.kids, prefix, 0)
}

/// The same entries, each with its value as iteration yields it.
pub open spec fn with_values(e: Seq<(Seq<u8>, i32)>) -> Seq<(Seq<u8>, Option<i32>)> {
    Seq::new(e.len(), |i: int| (e[i].0, Some(e[i].1)))
}

/// The entries `e` list the map `m`: they come in strictly ascending order
/// of their keys, each is a key of `m` with its value, and every key of `m`
/// is among them.
pub open spec fn is_listing(e: Seq<(Seq<u8>, Option<i32>)>, m: Map<Seq<u8>, i32>) -> bool {
    &&& keys_ascend(e)
    &&& forall|i: int| 0 <= i < e.len() ==> map_get(m, (#[trigger] e[i]).0) == e[i].1 && e[i].1.is_some()
    &&& forall|k: Seq<u8>|
        m.contains_key(k) ==> exists|i: int| 0 <= i < e.len() && (#[trigger] e[i]).0 == k
}

/// No key comes before itself.
pub proof fn lemma_lex_irreflexive(a: Seq<u8>)
    ensures
        !lex_lt(a, a),
    decreases a.len(),
{
    if a.len() > 0 {
        lemma_lex_irreflexive(a.skip(1));
    }
}

/// The order of keys is transitive.
pub proof fn lemma_lex_transitive(a: Seq<u8>, b: Seq<u8>, c: Seq<u8>)
    requires
        lex_lt(a, b),
        lex_lt(b, c),
    ensures
        lex_lt(a, c),
    decreases a.len(),
{
    if a.len() > 0 && a[0] == b[0] && b[0] == c[0] {
        lemma_lex_transitive(a.skip(1), b.skip(1), c.skip(1));
    }
}

/// Two keys that agree in their first `n` bytes agree in the first byte,
/// and the keys behind it agree in their first `n - 1` bytes.
pub proof fn lemma_take_skip(a: Seq<u8>, b: Seq<u8>, n: int)
    requires
        1 <= n <= a.len(),
        n <= b.len(),
        a.take(n) == b.take(n),
    ensures
        a[0] == b[0],
        a.skip(1).take(n - 1) == b.skip(1).take(n - 1),
{
    let x = a.take(n);
    let y = b.take(n);
    assert(x[0] == y[0]);
    let u = a.skip(1).take(n - 1);
    let v = b.skip(1).take(n - 1);
    assert forall|i: int| 0 <= i < n - 1 implies #[trigger] u[i] == v[i] by {
        assert(x[i + 1] == y[i + 1]);
        assert(u[i] == a[i + 1]);
        assert(v[i] == b[i + 1]);
    }
    assert(u =~= v);
}

/// A key comes before every longer key that begins with it.
pub proof fn lemma_lex_longer(p: Seq<u8>, k: Seq<u8>)
    requires
        begins_with(k, p),
        k.len() > p.len(),
    ensures
        lex_lt(p, k),
    decreases p.len(),
{
    if p.len() > 0 {
        assert(p.take(p.len() as int) =~= p);
        lemma_take_skip(k, p, p.len() as int);
        assert(p.skip(1).take(p.len() - 1) =~= p.skip(1));
        lemma_lex_longer(p.skip(1), k.skip(1));
    }
}

/// Of two keys that agree in their first `n` bytes, the one with the
/// smaller byte after them comes first.
pub proof fn lemma_lex_differ(a: Seq<u8>, b: Seq<u8>, n: int)
    requires
        0 <= n < a.len(),
        n < b.len(),
        a.take(n) == b.take(n),
        a[n] < b[n],
    ensures
        lex_lt(a, b),
    decreases n,
{
    if n > 0 {
        lemma_take_skip(a, b, n);
        lemma_lex_differ(a.skip(1), b.skip(1), n - 1);
    }
}

/// The keys of the entries of a trie begin with the key of its root, and
/// come in strictly ascending order.
pub proof fn lemma_entries_ascend(t: Trie, prefix: Seq<u8>)
    requires
        t.wf(),
    ensures
        keys_ascend(entries(t, prefix)),
        forall|i: int|
            0 <= i < entries(t, prefix).len() ==> begins_with(
                (#[trigger] entries(t, prefix)[i]).0,
                prefix,
            ),
    decreases t, 1int,
{
    let own = own_entry(t.value, prefix);
    let below = kid_entries(t.labels, t.kids, prefix, 0);
    let all = entries(t, prefix);
    lemma_kid_entries_ascend(t.labels, t.kids, prefix, 0);
    assert(prefix.take(prefix.len() as int) =~= prefix);
    assert forall|i: int| 0 <= i < all.len() implies begins_with((#[trigger] all[i]).0, prefix) by {
        if i >= own.len() {
            assert(all[i] == below[i - own.len()]);
        }
    }
    assert forall|i: int, j: int| 0 <= i < j < all.len() implies lex_lt(
        #[trigger] all[i].0,
        #[trigger] all[j].0,
    ) by {
        assert(all[j] == below[j - own.len()]);
        if i < own.len() {
            lemma_lex_longer(prefix, all[j].0);
        } else {
            assert(all[i] == below[i - own.len()]);
        }
    }
}

/// The keys of the entries under the edges from `j` on are longer than the
/// key in front of the edges, begin with it, go on with the byte of one of
/// these edges, and come in strictly ascending order.
pub proof fn lemma_kid_entries_ascend(
    labels: Seq<u8>,
    kids: Seq<Trie>,
    prefix: Seq<u8>,
    j: int,
)
    requires
        ascending(labels),
        labels.len() == kids.len(),
        forall|m: int| 0 <= m < kids.len() ==> (#[trigger] kids[m]).wf(),
        0 <= j <= kids.len(),
    ensures
        keys_ascend(kid_entries(labels, kids, prefix, j)),
        forall|i: int|
            0 <= i < kid_entries(labels, kids, prefix, j).len() ==> {
                let k = (#[trigger] kid_entries(labels, kids, prefix, j)[i]).0;
                &&& begins_with(k, prefix)
                &&& k.len() > prefix.len()
                &&& j < labels.len()
                &&& k[prefix.len() as int] >= labels[j]
            },
    decreases kids, kids.len() - j,
{
    if j < kids.len() {
        let longer = prefix.push(labels[j]);
        let first = entries(kids[j], longer);
        let rest = kid_entries(labels, kids, prefix, j + 1);
        let all = kid_entries(labels, kids, prefix, j);
        lemma_entries_ascend(kids[j], longer);
        lemma_kid_entries_ascend(labels, kids, prefix, j + 1);
        let n = prefix.len() as int;
        assert forall|i: int| 0 <= i < first.len() implies {
            let k = (#[trigger] first[i]).0;
            &&& begins_with(k, prefix)
            &&& k.len() > n
            &&& k[n] == labels[j]
        } by {
            let k = first[i].0;
            assert(begins_with(k, longer));
            assert(k.take(n + 1)[n] == longer[n]);
            assert(k.take(n) =~= prefix) by {
                assert forall|m: int| 0 <= m < n implies k.take(n)[m] == prefix[m] by {
                    assert(k.take(n + 1)[m] == longer[m]);
                }
            }
        }
        assert forall|i: int| 0 <= i < all.len() implies {
            let k = (#[trigger] all[i]).0;
            &&& begins_with(k, prefix)
            &&& k.len() > prefix.len()
            &&& j < labels.len()
            &&& k[prefix.len() as int] >= labels[j]
        } by {
            if i < first.len() {
                assert(all[i] == first[i]);
            } else {
                assert(all[i] == rest[i - first.len()]);
                assert(labels[j] < labels[j + 1]);
            }
        }
        assert forall|a: int, b: int| 0 <= a < b < all.len() implies lex_lt(
            #[trigger] all[a].0,
            #[trigger] all[b].0,
        ) by {
            if b < first.len() {
                assert(all[a] == first[a] && all[b] == first[b]);
            } else if a >= first.len() {
                assert(all[a] == rest[a - first.len()] && all[b] == rest[b - first.len()]);
            } else {
                assert(all[a] == first[a]);
                assert(all[b] == rest[b - first.len()]);
                assert(labels[j] < labels[j + 1]);
                lemma_lex_differ(all[a].0, all[b].0, n);
            }
        }
    }
}

/// What a trie holds for a key that is not empty is what the sub-trie
/// holds under the edge of the first byte of the key.
pub proof fn lemma_get_under(t: Trie, j: int, key: Seq<u8>)
    requires
        t.wf(),
        0 <= j < t.labels.len(),
        key.len() > 0,
        key[0] == t.labels[j],
    ensures
        t.get(key) == t.kids[j].get(key.skip(1)),
{
    assert forall|m: int| 0 <= m < j implies t.labels[m] < key[0] by {
        assert(t.labels[m] < t.labels[j]);
    }
    lemma_lower_bound_unique(t.labels, key[0], j);
}

/// Every entry of a trie is a key with the value that the trie holds for
/// it.
pub proof fn lemma_entry_is_held(t: Trie, prefix: Seq<u8>, i: int)
    requires
        t.wf(),
        0 <= i < entries(t, prefix).len(),
    ensures
        begins_with(entries(t, prefix)[i].0, prefix),
        t.get(entries(t, prefix)[i].0.skip(prefix.len() as int)) == Some(entries(t, prefix)[i].1),
    decreases t, 1int,
{
    let own = own_entry(t.value, prefix);
    let below = kid_entries(t.labels, t.kids, prefix, 0);
    if i < own.len() {
        assert(prefix.take(prefix.len() as int) =~= prefix);
        assert(prefix.skip(prefix.len() as int).len() == 0);
    } else {
        assert(entries(t, prefix)[i] == below[i - own.len()]);
        lemma_kid_entry_is_held(t, prefix, 0, i - own.len());
    }
}

/// Every entry under the edges of a trie is a key with the value that the
/// trie holds for it.
pub proof fn lemma_kid_entry_is_held(t: Trie, prefix: Seq<u8>, j: int, i: int)
    requires
        t.wf(),
        0 <= j <= t.kids.len(),
        0 <= i < kid_entries(t.labels, t.kids, prefix, j).len(),
    ensures
        begins_with(kid_entries(t.labels, t.kids, prefix, j)[i].0, prefix),
        t.get(kid_entries(t.labels, t.kids, prefix, j)[i].0.skip(prefix.len() as int)) == Some(
            kid_entries(t.labels, t.kids, prefix, j)[i].1,
        ),
    decreases t, 0int, t.kids.len() - j,
{
    let longer = prefix.push(t.labels[j]);
    let first = entries(t.kids[j], longer);
    let all = kid_entries(t.labels, t.kids, prefix, j);
    let n = prefix.len() as int;
    if i < first.len() {
        assert(all[i] == first[i]);
        lemma_entry_is_held(t.kids[j], longer, i);
        let k = first[i].0;
        assert(k.take(n + 1)[n] == longer[n]);
        assert(k.take(n) =~= prefix) by {
            assert forall|m: int| 0 <= m < n implies k.take(n)[m] == prefix[m] by {
                assert(k.take(n + 1)[m] == longer[m]);
            }
        }
        assert(k.skip(n).skip(1) =~= k.skip(n + 1));
        lemma_get_under(t, j, k.skip(n));
    } else {
        assert(all[i] == kid_entries(t.labels, t.kids, prefix, j + 1)[i - first.len()]);
        lemma_kid_entry_is_held(t, prefix, j + 1, i - first.len());
    }
}

/// Every key for which a trie holds a value is among its entries, with the
/// value.
pub proof fn lemma_held_is_entry(t: Trie, prefix: Seq<u8>, key: Seq<u8>) -> (i: int)
    requires
        t.wf(),
        t.get(key).is_some(),
    ensures
        0 <= i < entries(t, prefix).len(),
        entries(t, prefix)[i] == (prefix + key, t.get(key).unwrap()),
    decreases key.len(),
{
    let own = own_entry(t.value, prefix);
    if key.len() == 0 {
        assert(prefix + key =~= prefix);
        0
    } else {
        let j = lower_bound(t.labels, key[0]);
        lemma_lower_bound_splits(t.labels, key[0]);
        let longer = prefix.push(t.labels[j]);
        let i1 = lemma_held_is_entry(t.kids[j], longer, key.skip(1));
        assert(longer + key.skip(1) =~= prefix + key);
        let i2 = lemma_kid_entries_hold(t.labels, t.kids, prefix, 0, j, i1);
        own.len() + i2
    }
}

/// An entry under the edge `j` is among the entries under the edges from
/// `from` on, where `from` is `j` or before it.
pub proof fn lemma_kid_entries_hold(
    labels: Seq<u8>,
    kids: Seq<Trie>,
    prefix: Seq<u8>,
    from: int,
    j: int,
    i: int,
) -> (r: int)
    requires
        0 <= from <= j < kids.len(),
        j < labels.len(),
        0 <= i < entries(kids[j], prefix.push(labels[j])).len(),
    ensures
        0 <= r < kid_entries(labels, kids, prefix, from).len(),
        kid_entries(labels, kids, prefix, from)[r] == entries(kids[j], prefix.push(labels[j]))[i],
    decreases j - from,
{
    if from == j {
        i
    } else {
        let r1 = lemma_kid_entries_hold(labels, kids, prefix, from + 1, j, i);
        entries(kids[from], prefix.push(labels[from])).len() + r1
    }
}

/// The entries of a trie, as iteration yields them, list its map.
pub proof fn lemma_entries_list(t: Trie)
    requires
        t.wf(),
    ensures
        is_listing(with_values(entries(t, Seq::<u8>::empty())), crate::model::map_of(t)),
{
    let empty = Seq::<u8>::empty();
    let e = entries(t, empty);
    let w = with_values(e);
    let m = crate::model::map_of(t);
    lemma_entries_ascend(t, empty);
    assert forall|i: int, j: int| 0 <= i < j < w.len() implies lex_lt(
        #[trigger] w[i].0,
        #[trigger] w[j].0,
    ) by {
        assert(lex_lt(e[i].0, e[j].0));
    }
    assert forall|i: int| 0 <= i < w.len() implies map_get(m, (#[trigger] w[i]).0) == w[i].1
        && w[i].1.is_some() by {
        lemma_entry_is_held(t, empty, i);
        assert(e[i].0.skip(0) =~= e[i].0);
    }
    assert forall|k: Seq<u8>| m.contains_key(k) implies exists|i: int|
        0 <= i < w.len() && (#[trigger] w[i]).0 == k by {
        let i = lemma_held_is_entry(t, empty, k);
        assert(empty + k =~= k);
        assert(w[i].0 == k);
    }
}

/// A map has one listing only: two sequences of entries that list the
/// same map are equal.
pub proof fn lemma_listing_unique(
    a: Seq<(Seq<u8>, Option<i32>)>,
    b: Seq<(Seq<u8>, Option<i32>)>,
    m: Map<Seq<u8>, i32>,
)
    requires
        is_listing(a, m),
        is_listing(b, m),
    ensures
        a == b,
    decreases a.len(),
{
    if a.len() == 0 {
        if b.len() > 0 {
            let k = b[0].0;
            assert(m.contains_key(k));
            let i = choose|i: int| 0 <= i < a.len() && (#[trigger] a[i]).0 == k;
        }
        assert(a =~= b);
    } else {
        let ka = a[0].0;
        assert(m.contains_key(ka));
        let j = choose|j: int| 0 <= j < b.len() && (#[trigger] b[j]).0 == ka;
        if j > 0 {
            let kb = b[0].0;
            assert(lex_lt(kb, ka));
            assert(m.contains_key(kb));
            let i = choose|i: int| 0 <= i < a.len() && (#[trigger] a[i]).0 == kb;
            if i == 0 {
                lemma_lex_irreflexive(ka);
            } else {
                assert(lex_lt(ka, kb));
                lemma_lex_transitive(ka, kb, ka);
                lemma_lex_irreflexive(ka);
            }
        }
        assert(b[0].0 == ka);
        assert(a[0] == b[0]);
        let m2 = m.remove(ka);
        let a2 = a.skip(1);
        let b2 = b.skip(1);
        lemma_listing_rest(a, m);
        lemma_listing_rest(b, m);
        lemma_listing_unique(a2, b2, m2);
        assert(a =~= seq![a[0]] + a2);
        assert(b =~= seq![b[0]] + b2);
    }
}

/// A listing without its first entry lists the map without the key of
/// that entry.
pub proof fn lemma_listing_rest(a: Seq<(Seq<u8>, Option<i32>)>, m: Map<Seq<u8>, i32>)
    requires
        is_listing(a, m),
        a.len() > 0,
    ensures
        is_listing(a.skip(1), m.remove(a[0].0)),
{
    let k0 = a[0].0;
    let a2 = a.skip(1);
    let m2 = m.remove(k0);
    assert forall|i: int, j: int| 0 <= i < j < a2.len() implies lex_lt(
        #[trigger] a2[i].0,
        #[trigger] a2[j].0,
    ) by {
        assert(lex_lt(a[i + 1].0, a[j + 1].0));
    }
    assert forall|i: int| 0 <= i < a2.len() implies map_get(m2, (#[trigger] a2[i]).0) == a2[i].1
        && a2[i].1.is_some() by {
        assert(a2[i] == a[i + 1]);
        assert(lex_lt(a[0].0, a[i + 1].0));
        if a[i + 1].0 == k0 {
            lemma_lex_irreflexive(k0);
        }
    }
    assert forall|k: Seq<u8>| m2.contains_key(k) implies exists|i: int|
        0 <= i < a2.len() && (#[trigger] a2[i]).0 == k by {
        assert(m.contains_key(k));
        let i = choose|i: int| 0 <= i < a.len() && (#[trigger] a[i]).0 == k;
        assert(i > 0);
        assert(a2[i - 1].0 == k);
    }
}

} // verus!
