[package]
name = "connect4_moderator_server"
version = "0.1.0"
edition = "2021"
publish = false

[dependencies]
rand = "*"
tokio = { version = "1", features = ["full"] }
tokio-tungstenite = "*"
futures-util = "*"
anyhow = "1"
tracing = "0.1"
tracing-subscriber = "0.3"
local-ip-address = "*"
