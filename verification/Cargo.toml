[package]
name = "bytes_trie"
version = "0.1.0"
edition = "2021"
publish = false

[dependencies]
thiserror = "=1.0.69"
linked-hash-map = "0.5"
ordered-float = "*"
