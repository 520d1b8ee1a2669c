[package]
name = "unigram"
version = "0.1.0"
edition = "2021"
publish = false

[dependencies]
ahash = "0.8"
rayon = "1.10"
serde = { version = "1.0", features = ["derive"] }
serde_json = "1.0"
thiserror = "2.0"
pyo3 = { version = "0.25", features = ["abi3", "abi3-py39"] }
