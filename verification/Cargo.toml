[package]
name = "luna"
version = "1.0.0"
edition = "2021"
publish = false

[dependencies]
regex = "1"
image = { version = "*", default-features = false }
serde = { version = "1", features = ["derive"] }
serde_json = "1"
anyhow = "1"
thiserror = "*"
log = "0.4"
env_logger = "*"
dirs = "*"
