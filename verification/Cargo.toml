[package]
name = "exchange_tracker"
version = "0.1.0"
edition = "2021"
publish = false

[dependencies]
clap = "3"
futures-util = "*"
reqwest = { version = "*", default-features = false }
serde = { version = "*", features = ["derive"] }
serde_yaml = "*"
tokio = { version = "*", features = ["full"] }
tokio-tungstenite = "*"
