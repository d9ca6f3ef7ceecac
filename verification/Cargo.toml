[package]
name = "flip_hash_benchmarks"
version = "0.1.0"
edition = "2021"
publish = false

[dependencies]
clap = { version = "4", features = ["derive"] }
itertools = "0.14"
rand = "0.8"
statrs = "0.18"
