[package]
name = "mut_binary_heap"
version = "0.1.0"
edition = "2021"
publish = false

[dependencies]
compare = "0.1"
serde = { version = "1", features = ["derive"] }
