[package]
name = "qlog-analyzer"
version = "0.1.0"
edition = "2021"
publish = false

[dependencies]
anyhow = "=1.0.104"
clap = { version = "=4.6.7", features = ["derive"] }
csv = "=1.4.0"
qlog = { version = "=0.18.2", features = ["gzip", "zstd"] }
serde = { version = "=1.0.229", features = ["derive"] }
serde_json = "=1.0.154"
