[package]
name = "acrostic_storage"
version = "0.1.0"
edition = "2021"
publish = false

[dependencies]
blake3 = "*"
chrono = "*"
ed25519-dalek = "1"
rand = "0.7"
leveldb = "*"

[dev-dependencies]
tempfile = "*"
