//! Building a serialized trie from keys and values.

pub mod add;
pub mod arena;
pub mod errors;
pub mod finalized;
pub mod graph;
pub mod node;
pub mod unique;
pub mod register;
pub mod steps;
pub mod marks;
pub mod writer;
pub mod layout;
pub mod emit;
pub mod meaning;
pub mod builder;

pub use builder::BytesTrieBuilder;
pub use errors::BytesTrieBuilderError;
pub use register::BuildMode;
