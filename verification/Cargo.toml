[package]
name = "nexergy"
version = "0.1.0"
edition = "2021"
publish = false

[dependencies]
anyhow = "1"
clap = { version = "4", features = ["derive"] }
polars = { version = "*", default-features = false, features = ["csv", "parquet"] }
reqwest = { version = "0.12", features = ["blocking", "gzip", "brotli", "deflate"] }
serde = { version = "1", features = ["derive"] }
serde_json = "1"
walkdir = "2"
