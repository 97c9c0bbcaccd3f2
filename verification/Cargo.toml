[package]
name = "fuzzy_rank"
version = "0.1.0"
edition = "2021"

[dependencies]
fuzzy-matcher = "0.3"
serde = { version = "1", features = ["derive"] }
