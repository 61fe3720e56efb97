[package]
name = "streaming_core"
version = "0.1.0"
edition = "2021"
publish = false

[dependencies]
anyhow = "1"
async-trait = "0.1"
bytes = "1"
itertools = "0.14"
tokio = { version = "1", default-features = false, features = ["sync"] }
tonic = { version = "0.12", default-features = false }
tracing = "0.1"
