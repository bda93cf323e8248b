[package]
name = "custom_tcp_listener"
version = "0.1.0"
edition = "2021"
publish = false

[dependencies]
http = "1"
httparse = "1"
regex = "1"
rustls = { version = "0.23", default-features = false, features = ["ring", "std", "tls12", "logging"] }
tokio = { version = "1", features = ["full"] }
tokio-rustls = { version = "0.26", default-features = false, features = ["ring", "tls12", "logging"] }
