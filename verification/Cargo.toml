[package]
name = "xmap"
version = "0.1.0"
edition = "2021"
publish = false

[dependencies]
axum = "=0.7.9"
axum-extra = { version = "=0.9.6", features = ["multipart"] }
bincode = "=1.3.3"
bytes = "=1.12.1"
crossbeam = "=0.8.5"
dashmap = "=6.2.1"
num_cpus = "=1.17.0"
rayon = "=1.12.0"
serde = { version = "=1.0.229", features = ["derive"] }
tokio = { version = "=1.54.1", features = ["full"] }
tokio-util = { version = "=0.7.20", features = ["io"] }
tower-http = { version = "=0.5.2", features = ["cors"] }
