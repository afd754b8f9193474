[package]
name = "vnode"
version = "0.1.0"
edition = "2021"
publish = false

[dependencies]
sha2 = "0.10"
rs_merkle = "1"
ed25519-dalek = { version = "2", features = ["rand_core"] }
hex = "0.4"
chrono = { version = "0.4", features = ["serde"] }
rand = "0.8"
tokio = { version = "1", features = ["full"] }
dashmap = "5"
serde = { version = "1", features = ["derive"] }
log = "0.4"
env_logger = "0.11"
async-trait = "0.1"
anyhow = "1"
reqwest = { version = "0.12", default-features = false }
