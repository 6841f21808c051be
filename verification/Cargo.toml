[package]
name = "unclek"
version = "0.1.0"
edition = "2021"
publish = false

[dependencies]
bytes = "0.4"
crc = "1"
nom = "3"
hostname = "0.1"
futures = "0.1"
futures-cpupool = "0.1"
tokio-core = "0.1"
tokio-io = "0.1"
tokio-service = "0.1"
tokio-timer = "0.1"
log = "0.4"
log4rs = "*"
config = "*"
serde = { version = "1", features = ["derive"] }
serde_derive = "1"
