[package]
name = "mq"
version = "0.1.0"
edition = "2021"
publish = false

[dependencies]
tokio = { version = "1", features = ["rt-multi-thread", "net", "io-util", "sync", "time", "macros"] }
tracing = "0.1"
tracing-subscriber = "0.3"
memmap2 = "0.9"
bincode = "1"
serde = "1"
serde_derive = "1"
