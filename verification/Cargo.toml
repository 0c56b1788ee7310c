[package]
name = "shuffle"
version = "0.1.0"
edition = "2021"
publish = false

[dependencies]
anyhow = "1"
bytes = "=1.12.1"
futures = "0.3"
metrics = "0.24"
tokio = { version = "1", features = ["macros", "rt", "sync", "time"] }
tonic = { version = "0.14", default-features = false }
tracing = "0.1"
