[package]
name = "synaptic_mesh"
version = "0.1.0"
edition = "2021"
publish = false

[dependencies]
blake3 = { version = "1", features = ["pure"] }
ed25519-dalek = { version = "2", features = ["rand_core"] }
x25519-dalek = { version = "2", features = ["static_secrets"] }
aes-gcm = "0.10"
hex = "0.4"
rand = "0.8"
uuid = { version = "1", features = ["v4", "serde"] }
serde = { version = "1", features = ["derive"] }
serde_json = "1"
bincode = "1"
thiserror = "1"
tokio = { version = "1", features = ["rt-multi-thread", "macros", "sync", "time", "fs", "signal"] }
async-trait = "0.1"
async-recursion = "1"
tracing = "0.1"
tracing-subscriber = { version = "0.3", features = ["env-filter"] }
clap = { version = "4", features = ["derive"] }
colored = "2"
dashmap = "5"
parking_lot = "0.12"
zeroize = { version = "1", features = ["derive"] }
multiaddr = "0.18"
chrono = "0.4"
anyhow = "1"
ruv-fann = "*"

[dev-dependencies]
