//! The key while the trie is walked.

use vstd::prelude::*;

verus! {

/// Holds the key, or the part of it that is read, while the trie is
/// walked. When the walk goes back to another edge of a branch, the key is
/// cut: the buffer keeps its bytes and only notes the new length, so that no
/// memory is given back and taken again.
#[derive(Debug)]
pub struct KeyBuffer {
    bytes: Vec<u8>,
    length: usize,
}

impl KeyBuffer {
    /// The buffer is in order: its key lies within its bytes.
    pub closed spec fn wf(&self) -> bool {
        self.length <= self.bytes@.len()
    }

    /// The key.
    pub closed spec fn view(&self) -> Seq<u8> {
        self.bytes@.take(self.length as int)
    }

    /// A buffer with the empty key.
    pub fn new() -> (r: Self)
        ensures
            r.wf(),
            r@ == Seq::<u8>::empty(),
    {
        let r = KeyBuffer { bytes: Vec::new(), length: 0 };
        proof {
            assert(r@ =~= Seq::<u8>::empty());
        }
        r
    }

    /// The length of the key.
    pub fn len(&self) -> (r: usize)
        requires
            self.wf(),
        ensures
            r == self@.len(),
    {
        self.length
    }

    /// Adds a byte to the key.
    pub fn push(&mut self, key_byte: u8)
        requires
            old(self).wf(),
        ensures
            final(self).wf(),
            final(self)@ == old(self)@.push(key_byte),
    {
        if self.length < self.bytes.len() {
            self.bytes[self.length] = key_byte;
        } else {
            self.bytes.push(key_byte);
        }
        let ghost capacity: usize = self.bytes.len();
        self.length = self.length + 1;
        proof {
            assert(self@ =~= old(self)@.push(key_byte));
        }
    }

    /// Adds the bytes of `other` from `from` to `to` to the key.
    pub fn extend_from_slice(&mut self, other: &[u8], from: usize, to: usize)
        requires
            old(self).wf(),
            from <= to <= other@.len(),
        ensures
            final(self).wf(),
            final(self)@ == old(self)@ + other@.subrange(from as int, to as int),
    {
        let mut i: usize = from;
        proof {
            assert(self@ =~= old(self)@ + other@.subrange(from as int, i as int));
        }
        while i < to
            invariant
                from <= i <= to,
                to <= other@.len(),
                self.wf(),
                self@ == old(self)@ + other@.subrange(from as int, i as int),
            decreases to - i,
        {
            let ghost before = self@;
            self.push(other[i]);
            proof {
                assert(before.push(other[i as int]) =~= old(self)@ + other@.subrange(
                    from as int,
                    i + 1,
                ));
            }
            i = i + 1;
        }
    }

    /// Cuts the key to its first `length` bytes.
    pub fn truncate(&mut self, length: usize)
        requires
            old(self).wf(),
            length <= old(self)@.len(),
        ensures
            final(self).wf(),
            final(self)@ == old(self)@.take(length as int),
    {
        self.length = length;
        proof {
            assert(self@ =~= old(self)@.take(length as int));
        }
    }

    /// The key as a slice.
    pub fn as_slice(&self) -> (r: &[u8])
        requires
            self.wf(),
        ensures
            r@ == self@,
    {
        let r: &[u8] = vstd::slice::slice_subrange(self.bytes.as_slice(), 0, self.length);
        proof {
            assert(r@ =~= self@);
        }
        r
    }

    /// A copy of the key.
    pub fn to_vec(&self) -> (r: Vec<u8>)
        requires
            self.wf(),
        ensures
            r@ == self@,
    {
        let mut r: Vec<u8> = Vec::with_capacity(self.length);
        let mut i: usize = 0;
        while i < self.length
            invariant
                i <= self.length,
                self.wf(),
                r@ == self.bytes@.take(i as int),
            decreases self.length - i,
        {
            r.push(self.bytes[i]);
            proof {
                assert(self.bytes@.take(i + 1) =~= self.bytes@.take(i as int).push(
                    self.bytes@[i as int],
                ));
            }
            i = i + 1;
        }
        r
    }
}

} // verus!
