[package]
name = "shredscan"
version = "0.1.0"
edition = "2021"
publish = false

[dependencies]
bincode = "1.3"
chrono = "0.4"
solana-entry = "1.18"
solana-sdk = "1.18"
tokio = { version = "1", features = ["net", "rt-multi-thread", "macros"] }
