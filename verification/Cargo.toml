[package]
name = "ch32_data"
version = "0.1.0"
edition = "2021"
publish = false

[dependencies]
serde = { version = "1", features = ["derive"] }
serde_json = "1"
serde_yaml = "0.9"
regex = "1"
anyhow = "1"
glob = "0.3"
proc-macro2 = "1"
