[package]
name = "rpc"
version = "0.1.0"
edition = "2021"
publish = false

[dependencies]
rsa = { version = "0.9", features = ["serde"] }
rand = "0.8"
serde = { version = "1", features = ["derive"] }
serde_json = "1"
bincode = "1"
