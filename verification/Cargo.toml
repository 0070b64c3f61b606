[package]
name = "dds_backend"
version = "0.1.0"
edition = "2021"
publish = false

[dependencies]
serde = { version = "1", features = ["derive"] }
serde_json = "1"
anyhow = "1"
csv = "1"
mio = { version = "0.8", features = ["os-poll"] }
rustdds = "0.11"
