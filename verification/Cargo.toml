[package]
name = "pumpkin-formats"
version = "0.1.0"
edition = "2021"
publish = false

[dependencies]
bytes = "=1.12.1"
ruzstd = "=0.9.1"
rustc-hash = "=2.1.3"
uuid = "=1.29.0"
serde = { version = "=1.0.229", features = ["derive"] }
thiserror = "=2.0.21"
tokio = { version = "=1.54.1", default-features = false, features = ["sync", "rt"] }
tracing = "=0.1.44"
