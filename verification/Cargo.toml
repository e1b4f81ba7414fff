[package]
name = "homelab_db"
version = "0.1.0"
edition = "2021"
publish = false

[dependencies]
bincode = "1.3"
hmac-sha256 = "1"
rand = "0.8"
serde = { version = "1", features = ["derive"] }
serde_json = "1"
thiserror = "1"
toml = "0.8"
