[package]
name = "pbench"
version = "0.1.0"
edition = "2021"
publish = false

[dependencies]
hdrhistogram = { version = "7", default-features = false }
serde = { version = "1", features = ["derive"] }
serde_json = "1"
