[package]
name = "merkle_commit"
version = "0.1.0"
edition = "2021"
publish = false

[dependencies]
solana-sdk = "2"
serde = { version = "1", features = ["derive"] }
serde_json = "1"
rand = "*"
