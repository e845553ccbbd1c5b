[package]
name = "tdigest_ch"
version = "0.1.0"
edition = "2021"

[dependencies]
serde = "1"

[dev-dependencies]
rand = "0.8"
serde_json = "1"
