[package]
name = "orchitecture"
version = "0.1.0"
edition = "2021"
publish = false

[dependencies]
rand = "0.9"
serde = { version = "1", features = ["derive"] }
serde_json = "1"
ron = "*"
rgb = "0.8"
anyhow = "1"
