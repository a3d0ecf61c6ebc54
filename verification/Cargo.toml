[package]
name = "async_jsonl"
version = "0.1.0"
edition = "2021"
publish = false

[dependencies]
anyhow = "1"
async-trait = "0.1"
futures = "0.3"
serde = "1"
serde_json = "1"
tokio = { version = "1", features = ["fs", "io-util"] }
