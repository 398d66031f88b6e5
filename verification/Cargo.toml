[package]
name = "galois_core"
version = "0.1.0"
edition = "2021"
publish = false

[dependencies]
sparse-merkle-tree = { version = "0.5", features = ["blake2b"] }
sha2 = "0.10"
blake2b-rs = "0.2"
