[package]
name = "bf"
version = "0.1.0"
edition = "2021"
publish = false

[dependencies]
flate2 = "*"
serde = { version = "*", features = ["derive"] }
serde_json = "*"
serde_yaml = "*"
ciborium = "*"
clap = { version = "*", features = ["derive"] }
anyhow = "*"
log = "*"
simple_logger = "*"
thiserror = "*"
