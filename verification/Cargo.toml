[package]
name = "mirdb"
version = "0.1.0"
edition = "2021"
publish = false

[dependencies]
bincode = "1"
crc = "1"
futures = "0.1"
glob = "0.3"
integer-encoding = "1"
serde = { version = "1", features = ["derive"] }
skip-list = "*"
snap = "0.2"
tokio = "0.1"
tokio-proto = "0.1"
tokio-service = "0.1"
