//! What a byte sequence means when it is read as a trie.
//!
//! Every function here takes the bytes from the first byte of a node to the
//! end of the trie. All jumps in the format lead forward, so the meaning of a
//! node depends on nothing before it.

use vstd::prelude::*;
use crate::encoding::{
    delta_of, delta_width, spec_is_final, value_of, value_width,
    MAX_BRANCH_LINEAR_SUB_NODE_LENGTH, MIN_LINEAR_MATCH, MIN_VALUE_LEAD,
};

verus! {

/// The value that the node at the start of `t` holds for `key`.
pub open spec fn lookup(t: Seq<u8>, key: Seq<u8>) -> Option<i32>
    decreases t.len(), 0int,
{
    if t.len() == 0 {
        None
    } else if t[0] >= MIN_VALUE_LEAD {
        let w = value_width(t[0]);
        if t.len() < w {
            None
        } else if key.len() == 0 {
            Some(value_of(t) as i32)
        } else if spec_is_final(t[0]) {
            None
        } else {
            lookup(t.skip(w), key)
        }
    } else if key.len() == 0 {
        None
    } else if t[0] >= MIN_LINEAR_MATCH {
        let n = t[0] - MIN_LINEAR_MATCH + 1;
        if t.len() < 1 + n || key.len() < n || key.take(n) != t.subrange(1, 1 + n) {
            None
        } else {
            lookup(t.skip(1 + n), key.skip(n))
        }
    } else if t[0] != 0 {
        branch_lookup(t.skip(1), t[0] + 1, key)
    } else if t.len() < 2 {
        None
    } else {
        branch_lookup(t.skip(2), t[1] + 1, key)
    }
}

/// The value that a branch with `length` edges left, stored at the start of
/// `t`, holds for the key `key`, which is not empty.
pub open spec fn branch_lookup(t: Seq<u8>, length: int, key: Seq<u8>) -> Option<i32>
    recommends
        key.len() > 0,
    decreases t.len(), length,
{
    if t.len() == 0 {
        None
    } else if length > MAX_BRANCH_LINEAR_SUB_NODE_LENGTH {
        if t.len() < 2 || t.len() < 1 + delta_width(t[1]) {
            None
        } else {
            let w = delta_width(t[1]);
            let d = delta_of(t.skip(1));
            if key[0] < t[0] {
                if d < 0 || 1 + w + d > t.len() {
                    None
                } else {
                    branch_lookup(t.skip(1 + w + d), length / 2, key)
                }
            } else {
                branch_lookup(t.skip(1 + w), length - length / 2, key)
            }
        }
    } else if length > 1 {
        if t.len() < 2 || t.len() < 1 + value_width(t[1]) {
            None
        } else {
            let w = value_width(t[1]);
            let v = value_of(t.skip(1));
            if key[0] != t[0] {
                branch_lookup(t.skip(1 + w), length - 1, key)
            } else if spec_is_final(t[1]) {
                if key.len() == 1 {
                    Some(v as i32)
                } else {
                    None
                }
            } else if v < 0 || 1 + w + v > t.len() {
                None
            } else {
                lookup(t.skip(1 + w + v), key.skip(1))
            }
        }
    } else if key[0] == t[0] {
        lookup(t.skip(1), key.skip(1))
    } else {
        None
    }
}

/// Skipping `a` and then `b` elements skips `a + b`.
pub proof fn lemma_skip_skip(t: Seq<u8>, a: int, b: int)
    requires
        0 <= a,
        0 <= b,
        a + b <= t.len(),
    ensures
        t.skip(a).skip(b) == t.skip(a + b),
{
    assert(t.skip(a).skip(b) =~= t.skip(a + b));
}

/// Tells whether a key of the length of `prefix` is as long as `max`
/// allows.
pub open spec fn at_max(prefix: Seq<u8>, max: Option<usize>) -> bool {
    match max {
        Some(m) => prefix.len() >= m,
        None => false,
    }
}

/// The entries that iteration yields from the node at the start of `t` on,
/// where `prefix` is the key so far and no key is to be longer than `max`:
/// each key with its value, in the order of the bytes. A key that is cut off
/// at the greatest length, or at which the bytes end too early, comes
/// without a value.
pub open spec fn entries_from(t: Seq<u8>, prefix: Seq<u8>, max: Option<usize>) -> Seq<
    (Seq<u8>, Option<i32>),
>
    decreases t.len(), 0int,
{
    if t.len() == 0 {
        seq![(prefix, None)]
    } else if t[0] >= MIN_VALUE_LEAD {
        if t.len() < value_width(t[0]) {
            seq![(prefix, None)]
        } else if spec_is_final(t[0]) || at_max(prefix, max) {
            seq![(prefix, Some(value_of(t) as i32))]
        } else {
            seq![(prefix, Some(value_of(t) as i32))] + entries_from(
                t.skip(value_width(t[0])),
                prefix,
                max,
            )
        }
    } else if at_max(prefix, max) {
        seq![(prefix, None)]
    } else if t[0] < MIN_LINEAR_MATCH {
        if t[0] != 0 {
            branch_entries(t.skip(1), t[0] + 1, prefix, max)
        } else if t.len() < 2 {
            seq![(prefix, None)]
        } else {
            branch_entries(t.skip(2), t[1] + 1, prefix, max)
        }
    } else {
        let n = t[0] - MIN_LINEAR_MATCH + 1;
        if t.len() < 1 + n {
            seq![(prefix, None)]
        } else if max.is_some() && prefix.len() + n > max.unwrap() {
            seq![(prefix + t.subrange(1, 1 + max.unwrap() - prefix.len()), None)]
        } else {
            entries_from(t.skip(1 + n), prefix + t.subrange(1, 1 + n), max)
        }
    }
}

/// The entries that iteration yields from a branch with `length` edges
/// left, stored at the start of `t`.
pub open spec fn branch_entries(
    t: Seq<u8>,
    length: int,
    prefix: Seq<u8>,
    max: Option<usize>,
) -> Seq<(Seq<u8>, Option<i32>)>
    decreases t.len(), length,
{
    if length > MAX_BRANCH_LINEAR_SUB_NODE_LENGTH {
        if t.len() < 2 || t.len() < 1 + delta_width(t[1]) || delta_of(t.skip(1)) < 0 || 1
            + delta_width(t[1]) + delta_of(t.skip(1)) > t.len() {
            seq![(prefix, None)]
        } else {
            branch_entries(
                t.skip(1 + delta_width(t[1]) + delta_of(t.skip(1))),
                length / 2,
                prefix,
                max,
            ) + branch_entries(t.skip(1 + delta_width(t[1])), length - length / 2, prefix, max)
        }
    } else if length > 1 {
        if t.len() < 2 || t.len() < 1 + value_width(t[1]) {
            seq![(prefix, None)]
        } else {
            let w = value_width(t[1]);
            let v = value_of(t.skip(1));
            let key = prefix.push(t[0]);
            (if spec_is_final(t[1]) {
                seq![(key, Some(v as i32))]
            } else if v < 0 || 1 + w + v > t.len() {
                seq![(key, None)]
            } else {
                entries_from(t.skip(1 + w + v), key, max)
            }) + branch_entries(t.skip(1 + w), length - 1, prefix, max)
        }
    } else if t.len() < 1 {
        seq![(prefix, None)]
    } else {
        entries_from(t.skip(1), prefix.push(t[0]), max)
    }
}

/// All entries of the trie with the bytes `bytes`, in the order of
/// iteration, with no limit on the length of the keys.
pub open spec fn all_entries(bytes: Seq<u8>) -> Seq<(Seq<u8>, Option<i32>)> {
    entries_from(bytes, Seq::<u8>::empty(), None)
}

} // verus!
