[package]
name = "recipedia"
version = "0.1.6"
edition = "2021"
publish = false

[dependencies]
anyhow = "1"
askama = "0.14"
axum = "0.8"
bincode = "1"
ed25519-dalek = "=2.2.0"
futures-util = "0.3"
heed = "0.21"
hex = "=0.4.3"
hmac = "=0.12.1"
serde = { version = "1", features = ["derive"] }
serde_json = "1"
sha2 = "=0.10.9"
tokio = { version = "1", features = ["full"] }
tokio-util = { version = "0.7", features = ["io"] }
toml = "=0.8.23"
ureq = "2"
