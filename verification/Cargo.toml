[package]
name = "pattern_arena"
version = "0.1.0"
edition = "2021"
publish = false

[dependencies]
scapegoat = "2"

[dev-dependencies]
proptest = { version = "1", default-features = false, features = ["std"] }
