[package]
name = "bittorrent"
version = "0.1.0"
edition = "2021"
publish = false

[dependencies]
anyhow = "1"
bendy = { version = "0.3", features = ["serde"] }
hex = "0.4"
rand = "0.8"
reqwest = { version = "0.12", default-features = false }
serde = { version = "1", features = ["derive"] }
serde_bencode = "0.2"
serde_json = "1"
sha1 = "0.10"
tokio = { version = "1", features = ["full"] }
