[package]
name = "azalea"
version = "0.1.0"
edition = "2021"
publish = false

[dependencies]
num-traits = "=0.2.19"
priority-queue = "=2.7.0"
tokio = { version = "=1.54.1", features = ["io-util", "net"] }
uuid = "=1.29.0"
