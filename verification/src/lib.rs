//! A compact, serialized trie that maps byte strings to 32-bit integers.
//!
//! A [`BytesTrieBuilder`] collects keys with their values and builds the
//! bytes of the trie. A [`BytesTrie`] reads such bytes.

pub mod builder;
pub mod encoding;
pub mod extensions;
pub mod listing;
pub mod matcher_case;
pub mod model;
pub mod trie;

pub use builder::{BuildMode, BytesTrieBuilder, BytesTrieBuilderError};
pub use extensions::{ExtensionType, ParserError};
pub use matcher_case::{LocaleMatcherTestCase, TestCaseError};
pub use trie::{BytesTrie, BytesTrieEntry, BytesTrieIterator};
