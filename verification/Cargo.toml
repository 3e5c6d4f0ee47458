[package]
name = "lr_trie"
version = "0.1.0"
edition = "2021"
publish = false

[dependencies]
bincode = "=1.3.3"
chrono = "=0.4.45"
dirs = "=5.0.1"
indexmap = "=2.14.2"
rand = "=0.8.8"
secp256k1 = { version = "=0.28.2", features = ["serde"] }
serde = { version = "=1.0.229", features = ["derive"] }
sha2 = "=0.10.9"

[dev-dependencies]
fnv = "=1.0.7"
