[package]
name = "reverse_http_proxy"
version = "0.1.0"
edition = "2021"
publish = false

[dependencies]
httparse = "1"
tokio = { version = "1", features = ["full"] }
clap = { version = "4", features = ["derive"] }
