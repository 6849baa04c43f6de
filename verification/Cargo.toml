[package]
name = "tla_studio"
version = "0.1.0"
edition = "2021"
publish = false

[dependencies]
regex-syntax = "*"
petgraph = "*"
serde = { version = "1", features = ["derive"] }
serde_json = "1"
