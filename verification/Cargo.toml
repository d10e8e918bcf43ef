[package]
name = "highway"
version = "0.1.0"
edition = "2021"
publish = false

[dependencies]
argon2 = "=0.5.3"
base64 = "=0.21.7"
bytes = "=1.12.1"
dashmap = "=5.5.3"
futures-util = { version = "=0.3.34", features = ["sink"] }
http-body-util = "=0.1.5"
hyper = { version = "=1.12.0", features = ["server", "http1"] }
hyper-util = { version = "=0.1.21", features = ["tokio"] }
inotify = "=0.10.2"
leaky-bucket-lite = "=0.5.2"
libc = "=0.2.191"
metrics = "=0.21.1"
metrics-exporter-prometheus = { version = "=0.12.2", default-features = false }
serde = { version = "=1.0.229", features = ["derive"] }
serde_json = { version = "=1.0.154", features = ["raw_value"] }
sha1 = "=0.10.7"
simd-json = "=0.13.11"
tokio = { version = "=1.54.1", features = ["rt-multi-thread", "macros", "net", "sync", "time"] }
tokio-websockets = { version = "=0.5.0", features = ["server", "sha1_smol"] }
tracing = "=0.1.44"
tracing-subscriber = "=0.3.23"
uuid = { version = "=1.29.0", features = ["v4"] }
