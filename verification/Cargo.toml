[package]
name = "chunk_store"
version = "0.1.0"
edition = "2021"
publish = false

[dependencies]
bzip2 = "*"
serde_json = "1"
tokio = { version = "1", features = ["net", "io-util", "rt-multi-thread"] }
tracing = "0.1"
