[package]
name = "torrent_core"
version = "0.1.0"
edition = "2021"
publish = false

[dependencies]
anyhow = "1"
hex = "0.4"
reqwest = "0.11"
serde_json = "1"
sha1 = "0.10"
tokio = { version = "1", features = ["full"] }

[dev-dependencies]
serde_bencode = "0.2"
serde_bytes = "0.11"
