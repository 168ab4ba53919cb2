[package]
name = "merchant_o_rust"
version = "0.1.0"
edition = "2021"
publish = false

[dependencies]
env_logger = "0.10"
hyper = { version = "0.14", features = ["full"] }
log = "0.4"
serde = { version = "1", features = ["derive"] }
serde_json = "1"
tokio = { version = "1", features = ["full"] }
