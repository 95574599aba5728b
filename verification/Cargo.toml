[package]
name = "procomposer"
version = "0.1.0"
edition = "2021"
publish = false

[dependencies]
rand = "0.8"
redact-composer = "*"
serde = { version = "1", features = ["derive"] }
serde_json = "1"
env_logger = "*"
