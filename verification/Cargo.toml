[package]
name = "dod_worker"
version = "0.1.0"
edition = "2021"
publish = false

[dependencies]
anyhow = "1.0"
bincode = "1.3"
bytes = "1"
clap = "2.33"
ed25519-dalek = "1.0.1"
env_logger = "0.9"
futures = "0.3"
log = "0.4"
rand = "0.8"
serde = { version = "1", features = ["derive"] }
tokio = { version = "1", features = ["sync", "rt", "rt-multi-thread", "macros", "time", "net", "io-util"] }
tokio-util = { version = "0.7", features = ["codec"] }
