//! Reading a serialized trie: exact lookup and iteration in key order.

pub mod bytes_trie;
pub mod format;
pub mod iterator;
pub mod key_buffer;

pub use bytes_trie::BytesTrie;
pub use iterator::{BytesTrieEntry, BytesTrieIterator};
