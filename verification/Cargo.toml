[package]
name = "opinionated_defaults"
version = "0.1.0"
edition = "2021"
publish = false

[dependencies]
serde_json = "1"
serde = { version = "1", features = ["derive"] }
jsonc-parser = { version = "*", features = ["serde"] }
serde_yaml = "*"
ignore = "*"
anyhow = "1"
log = "*"
env_logger = "*"
