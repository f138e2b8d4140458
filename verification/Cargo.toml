[package]
name = "dynamic_bloom"
version = "0.1.0"
edition = "2021"
publish = false

[dev-dependencies]
xxhash-rust = { version = "*", features = ["xxh3"] }
