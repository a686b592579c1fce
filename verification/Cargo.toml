[package]
name = "fraud"
version = "0.1.0"
edition = "2021"
publish = false

[dependencies]
anyhow = "1"
chrono = { version = "0.4", features = ["serde"] }
flate2 = "1"
memmap2 = "0.9"
mimalloc = "0.1"
monoio = "0.2"
serde = { version = "1", features = ["derive"] }
serde_json = "1"
