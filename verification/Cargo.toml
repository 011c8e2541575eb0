[package]
name = "host_exposer"
version = "0.1.0"
edition = "2021"
publish = false

[dependencies]
axum = { version = "*", features = ["ws"] }
base64 = "*"
clap = { version = "*", features = ["derive"] }
futures-util = "*"
local-ip-address = "*"
rand = "*"
serde = { version = "*", features = ["derive"] }
serde_json = "*"
tokio = { version = "*", features = ["rt-multi-thread", "macros", "net", "sync", "io-util", "fs", "time"] }
tokio-tungstenite = "*"
uuid = { version = "*", features = ["v4"] }
