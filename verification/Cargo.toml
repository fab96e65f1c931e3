[package]
name = "radix_trie"
version = "0.1.0"
edition = "2021"
publish = false

[dependencies]
nibble_vec = "0.0"
libc = "0.2"
serde = "1"

[dev-dependencies]
quickcheck = { version = "1", default-features = false }
