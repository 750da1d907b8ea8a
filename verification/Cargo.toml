[package]
name = "protocol"
version = "0.1.0"
edition = "2021"
publish = false

[dependencies]
crc32fast = "1"
flate2 = "1"
rand = "0.8"
tokio = { version = "1", features = ["rt-multi-thread", "macros", "net", "io-util", "time"] }
socket2 = "0.5"
anyhow = "1"
log = "0.4"
env_logger = "0.11"
