//! The errors of the builder.

use vstd::prelude::*;

verus! {

/// Why the builder refused an operation.
#[derive(Debug, Clone, Copy, PartialEq, Eq, Structural)]
pub enum BytesTrieBuilderError {
    /// A trie cannot be built without any entries.
    EmptyBuilder,
    /// The key has a value already.
    DuplicateKey,
    /// Entries cannot be added once building has begun.
    AddAfterBuild,
    /// The key is longer than 0xffff bytes.
    KeyTooLong,
}

} // verus!
