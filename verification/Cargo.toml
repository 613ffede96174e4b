[package]
name = "rust_multi_ranking_engine"
version = "0.1.0"
edition = "2021"
publish = false

[dependencies]
thiserror = "1"
rayon = "1"
