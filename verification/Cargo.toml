[package]
name = "sources_update"
version = "0.1.0"
edition = "2021"
publish = false

[dependencies]
reqwest = { version = "*", default-features = false, features = ["blocking"] }
anyhow = "*"
log = "*"
env_logger = "*"
