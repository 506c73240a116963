[package]
name = "bytebarrage"
version = "0.1.0"
edition = "2021"
publish = false

[dependencies]
blake2 = "=0.10.6"
digest = "=0.10.7"
bytes = "=0.4.12"
futures = "=0.1.31"
net2 = "=0.2.39"
pnet_datalink = "=0.35.0"
rmp-serde = "=1.3.1"
serde = { version = "=1.0.229", features = ["derive"] }
serde_bytes = "=0.10.5"
tokio-core = "=0.1.18"
tokio-io = "=0.1.13"
tokio-proto = "=0.1.1"
tokio-service = "=0.1.0"
tokio-timer = "=0.1.2"
