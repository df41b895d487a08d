[package]
name = "http2socks"
version = "0.1.0"
edition = "2021"
publish = false

[dependencies]
log = "0.4"
serde = { version = "1", features = ["derive"] }
serde_yaml = "0.9"
simple_logger = "*"
tokio = { version = "1", features = ["io-util", "macros", "net", "rt-multi-thread"] }
