[package]
name = "binwire"
version = "0.1.0"
edition = "2021"
publish = false

[dependencies]
tokio = { version = "1", features = ["sync", "rt", "io-util", "time"] }
serde = "1"
thiserror = "2"
