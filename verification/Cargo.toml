[package]
name = "changeset_cache"
version = "0.1.0"
edition = "2021"
publish = false

[dependencies]
alloy-eips = "1"
alloy-primitives = { version = "1", features = ["getrandom", "map", "rand"] }
alloy-trie = "0.9"
metrics = "0.24"
metrics-derive = "0.1"
parking_lot = "0.12"
tracing = "0.1"
