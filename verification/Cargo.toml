[package]
name = "tailsync"
version = "0.1.0"
edition = "2021"
publish = false

[dependencies]
serde = { version = "1", features = ["derive"] }
serde_json = "1"
uuid = { version = "1", features = ["v4"] }
tokio = { version = "1", features = ["process", "io-util", "rt-multi-thread", "sync", "time"] }
thiserror = "*"
dirs = "*"
