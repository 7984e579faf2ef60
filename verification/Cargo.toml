[package]
name = "coppa"
version = "0.1.0"
edition = "2021"
publish = false

[dependencies]
anyhow = "1"
crc = "3"
futures-util = "0.3"
lz4_flex = "0.11"
num-complex = "0.4"
rustfft = "6"
serde = { version = "1", features = ["derive"] }
serde_json = "1"
tokio = { version = "1", features = ["full"] }
tokio-tungstenite = "0.26"
