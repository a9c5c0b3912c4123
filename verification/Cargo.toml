[package]
name = "kelp"
version = "0.1.0"
edition = "2021"
publish = false

[dependencies]
indexmap = { version = "2", features = ["serde"] }
regex = "1"
serde_yml = "*"
log = "0.4"
pretty_env_logger = "*"
