[package]
name = "neobft"
version = "0.1.0"
edition = "2021"
publish = false

[dependencies]
k256 = "0.13"
flume = "0.11"
rand = "0.8"
tokio = { version = "1", features = ["rt", "net", "time", "sync"] }
tokio-util = "0.7"

[dev-dependencies]
bincode = "1"
serde = "1"
