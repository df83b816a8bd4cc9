[package]
name = "engram"
version = "0.1.0"
edition = "2021"
publish = false

[dependencies]
petgraph = "=0.8.3"
tiktoken-rs = "=0.12.1"
tokio = { version = "=1.54.1", features = ["full"] }
axum = "=0.8.9"
serde = { version = "=1.0.229", features = ["derive"] }
serde_json = "=1.0.154"
uuid = { version = "=1.29.0", features = ["v4"] }
async-trait = "=0.1.92"
rand = "=0.9.5"
thiserror = "=2.0.21"
tracing = "=0.1.44"
tracing-subscriber = "=0.3.23"
anyhow = "=1.0.104"
reqwest = { version = "0.12", default-features = false, features = ["json", "rustls-tls"] }
