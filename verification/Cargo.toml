[package]
name = "route_proxy"
version = "0.1.0"
edition = "2021"
publish = false

[dependencies]
anyhow = "1"
dark-light = "2"
tokio = { version = "1", features = ["sync"] }
tracing = "0.1"
