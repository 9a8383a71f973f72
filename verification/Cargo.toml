[package]
name = "kademlia"
version = "0.1.0"
edition = "2021"
publish = false

[dependencies]
rand = "0.8"
rust-crypto = "0.2"
serde = { version = "1", features = ["derive"] }
serde_json = "1"
tokio = { version = "1", features = ["full"] }
tokio-util = { version = "0.7", features = ["codec"] }
futures = "0.3"
bytes = "1"
thiserror = "1"
anyhow = "1"
log = "0.4"
tracing = "0.1"
