[package]
name = "iroh_chat_cli"
version = "0.1.0"
edition = "2021"
publish = false

[dependencies]
anyhow = "*"
bytes = "*"
chrono = { version = "0.4", default-features = false, features = ["clock"] }
data-encoding = "*"
ed25519-dalek = "=2.2.0"
futures-lite = "*"
iroh = "*"
iroh-gossip = "*"
rand = "=0.9.5"
serde_yaml = "*"
shell-words = "*"
tokio = { version = "*", features = ["macros", "rt-multi-thread", "io-util", "io-std", "time", "signal", "sync"] }
tokio-util = "*"
