//! The trie reader.

use vstd::prelude::*;
use crate::encoding::{
    CompactDelta, CompactValue, MAX_BRANCH_LINEAR_SUB_NODE_LENGTH, MIN_LINEAR_MATCH,
    MIN_VALUE_LEAD,
};
use crate::trie::format::{branch_lookup, lemma_skip_skip, lookup};

verus! {

/// A serialized trie, read in place.
#[derive(Debug)]
pub struct BytesTrie {
    bytes: Vec<u8>,
}

/// Where a lookup stands after it has followed one edge of a branch.
enum BranchStep {
    /// The lookup is over with this result.
    Done(Option<i32>),
    /// The lookup goes on at this position with the next byte of the key.
    Goto(usize),
}

/// Tells whether `n` elements of `a` from `i` on equal those of `b` from `j` on.
pub fn slices_match(a: &[u8], i: usize, b: &[u8], j: usize, n: usize) -> (r: bool)
    requires
        i + n <= a.len(),
        j + n <= b.len(),
    ensures
        r == (a@.subrange(i as int, i + n) == b@.subrange(j as int, j + n)),
{
    let mut m: usize = 0;
    while m < n
        invariant
            m <= n,
            i + n <= a.len(),
            j + n <= b.len(),
            a@.subrange(i as int, i + m) == b@.subrange(j as int, j + m),
        decreases n - m,
    {
        if a[i + m] != b[j + m] {
            proof {
                assert(a@.subrange(i as int, i + n)[m as int] == a[i + m]);
                assert(b@.subrange(j as int, j + n)[m as int] == b[j + m]);
            }
            return false;
        }
        proof {
            assert(a@.subrange(i as int, i + m + 1) =~= a@.subrange(i as int, i + m).push(a[i + m]));
            assert(b@.subrange(j as int, j + m + 1) =~= b@.subrange(j as int, j + m).push(b[j + m]));
        }
        m = m + 1;
    }
    true
}

impl BytesTrie {
    /// The bytes of the trie.
    pub closed spec fn view(&self) -> Seq<u8> {
        self.bytes@
    }

    /// Takes the bytes of a serialized trie.
    pub fn from_bytes(bytes: Vec<u8>) -> (r: Self)
        ensures
            r@ == bytes@,
    {
        BytesTrie { bytes }
    }

    /// The bytes of the trie.
    pub fn as_bytes(&self) -> (r: &[u8])
        ensures
            r@ == self@,
    {
        self.bytes.as_slice()
    }

    /// Gives the bytes back.
    pub fn into_bytes(self) -> (r: Vec<u8>)
        ensures
            r@ == self@,
    {
        self.bytes
    }

    /// Looks `key` up. Returns the value stored for exactly this key, if any.
    pub fn get(&self, key: &[u8]) -> (r: Option<i32>)
        ensures
            r == lookup(self@, key@),
    {
        let bytes: &[u8] = self.bytes.as_slice();
        let mut pos: usize = 0;
        let mut k: usize = 0;
        proof {
            assert(bytes@.skip(0) =~= bytes@);
            assert(key@.skip(0) =~= key@);
        }
        loop
            invariant
                pos <= bytes.len(),
                k <= key.len(),
                bytes@ == self@,
                lookup(self@, key@) == lookup(bytes@.skip(pos as int), key@.skip(k as int)),
            decreases bytes.len() - pos,
        {
            let ghost t = bytes@.skip(pos as int);
            let ghost rest = key@.skip(k as int);
            if pos >= bytes.len() {
                return None;
            }
            let lead: u8 = bytes[pos];
            if lead >= MIN_VALUE_LEAD {
                let w: usize = CompactValue::get_width(bytes, pos);
                if bytes.len() - pos < w {
                    return None;
                }
                if k == key.len() {
                    return Some(CompactValue::read_int(bytes, pos));
                }
                if CompactValue::is_final(lead) {
                    return None;
                }
                proof {
                    lemma_skip_skip(bytes@, pos as int, w as int);
                }
                pos = pos + w;
            } else if k == key.len() {
                return None;
            } else if lead >= MIN_LINEAR_MATCH {
                let n: usize = (lead - MIN_LINEAR_MATCH) as usize + 1;
                if bytes.len() - pos < 1 + n || key.len() - k < n {
                    return None;
                }
                if !slices_match(key, k, bytes, pos + 1, n) {
                    proof {
                        assert(rest.take(n as int) =~= key@.subrange(k as int, k + n));
                        assert(t.subrange(1, 1 + n) =~= bytes@.subrange(pos + 1, pos + 1 + n));
                    }
                    return None;
                }
                proof {
                    assert(rest.take(n as int) =~= key@.subrange(k as int, k + n));
                    assert(t.subrange(1, 1 + n) =~= bytes@.subrange(pos + 1, pos + 1 + n));
                    lemma_skip_skip(bytes@, pos as int, 1 + n);
                    lemma_skip_skip(key@, k as int, n as int);
                }
                pos = pos + 1 + n;
                k = k + n;
            } else {
                let length: usize;
                let start: usize;
                if lead != 0 {
                    length = lead as usize + 1;
                    start = pos + 1;
                } else {
                    if bytes.len() - pos < 2 {
                        return None;
                    }
                    length = bytes[pos + 1] as usize + 1;
                    start = pos + 2;
                }
                proof {
                    lemma_skip_skip(bytes@, pos as int, start - pos);
                }
                match Self::branch_next(bytes, start, length, key, k) {
                    BranchStep::Done(r) => {
                        return r;
                    },
                    BranchStep::Goto(p) => {
                        pos = p;
                        k = k + 1;
                    },
                }
            }
        }
    }

    /// Follows the edge of `key[k]` in the branch with `length` edges that is
    /// stored from `pos` on.
    fn branch_next(bytes: &[u8], start: usize, count: usize, key: &[u8], k: usize) -> (r:
        BranchStep)
        requires
            start <= bytes.len(),
            k < key.len(),
            count <= 256,
        ensures
            match r {
                BranchStep::Done(v) => v == branch_lookup(
                    bytes@.skip(start as int),
                    count as int,
                    key@.skip(k as int),
                ),
                BranchStep::Goto(p) => start < p <= bytes.len() && branch_lookup(
                    bytes@.skip(start as int),
                    count as int,
                    key@.skip(k as int),
                ) == lookup(bytes@.skip(p as int), key@.skip(k + 1)),
            },
    {
        let c: u8 = key[k];
        let mut pos: usize = start;
        let mut length: usize = count;
        let ghost rest = key@.skip(k as int);
        let ghost goal = branch_lookup(bytes@.skip(start as int), count as int, rest);
        proof {
            lemma_skip_skip(key@, k as int, 1);
        }
        // Binary search through the split nodes.
        while length > MAX_BRANCH_LINEAR_SUB_NODE_LENGTH
            invariant
                start <= pos <= bytes.len(),
                length <= 256,
                k < key.len(),
                rest == key@.skip(k as int),
                rest[0] == c,
                goal == branch_lookup(bytes@.skip(start as int), count as int, rest),
                goal == branch_lookup(bytes@.skip(pos as int), length as int, rest),
            decreases bytes.len() - pos,
        {
            let ghost t = bytes@.skip(pos as int);
            if bytes.len() - pos < 2 {
                return BranchStep::Done(None);
            }
            let w: usize = CompactDelta::get_width(bytes, pos + 1);
            if bytes.len() - pos < 1 + w {
                return BranchStep::Done(None);
            }
            proof {
                lemma_skip_skip(bytes@, pos as int, 1);
            }
            if c < bytes[pos] {
                let d: i32 = CompactDelta::read_int(bytes, pos + 1);
                if d < 0 || (d as usize) > bytes.len() - pos - 1 - w {
                    return BranchStep::Done(None);
                }
                proof {
                    lemma_skip_skip(bytes@, pos as int, 1 + w + d);
                }
                length = length / 2;
                pos = pos + 1 + w + d as usize;
            } else {
                proof {
                    lemma_skip_skip(bytes@, pos as int, 1 + w);
                }
                length = length - length / 2;
                pos = pos + 1 + w;
            }
        }
        // Linear search through the list of the remaining edges.
        while length > 1
            invariant
                start <= pos <= bytes.len(),
                length <= MAX_BRANCH_LINEAR_SUB_NODE_LENGTH,
                k < key.len(),
                rest == key@.skip(k as int),
                rest[0] == c,
                rest.len() == key.len() - k,
                rest.skip(1) == key@.skip(k + 1),
                goal == branch_lookup(bytes@.skip(start as int), count as int, rest),
                goal == branch_lookup(bytes@.skip(pos as int), length as int, rest),
            decreases length,
        {
            let ghost t = bytes@.skip(pos as int);
            if bytes.len() - pos < 2 {
                return BranchStep::Done(None);
            }
            let w: usize = CompactValue::get_width(bytes, pos + 1);
            if bytes.len() - pos < 1 + w {
                return BranchStep::Done(None);
            }
            proof {
                lemma_skip_skip(bytes@, pos as int, 1);
            }
            if c == bytes[pos] {
                let v: i32 = CompactValue::read_int(bytes, pos + 1);
                if CompactValue::is_final(bytes[pos + 1]) {
                    if k + 1 == key.len() {
                        return BranchStep::Done(Some(v));
                    } else {
                        return BranchStep::Done(None);
                    }
                }
                if v < 0 || (v as usize) > bytes.len() - pos - 1 - w {
                    return BranchStep::Done(None);
                }
                proof {
                    lemma_skip_skip(bytes@, pos as int, 1 + w + v);
                }
                return BranchStep::Goto(pos + 1 + w + v as usize);
            }
            proof {
                lemma_skip_skip(bytes@, pos as int, 1 + w);
            }
            length = length - 1;
            pos = pos + 1 + w;
        }
        if pos < bytes.len() && c == bytes[pos] {
            proof {
                lemma_skip_skip(bytes@, pos as int, 1);
            }
            BranchStep::Goto(pos + 1)
        } else {
            BranchStep::Done(None)
        }
    }
}

} // verus!
