[package]
name = "kafka_broker"
version = "0.1.0"
edition = "2021"
publish = false

[dependencies]
tokio = { version = "*", features = ["rt-multi-thread", "net", "io-util", "fs", "time", "macros"] }
anyhow = "*"

[dev-dependencies]
uuid = "*"
bytes = "*"
