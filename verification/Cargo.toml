[package]
name = "fault_tolerant_telemetry"
version = "0.1.0"
edition = "2021"
publish = false

[dependencies]
dashmap = "6"
uuid = { version = "1", features = ["v4"] }
rand = "0.8"
tokio = { version = "1", features = ["rt-multi-thread", "macros", "sync", "time"] }
tracing = "0.1"
tracing-subscriber = { version = "0.3", features = ["env-filter"] }
anyhow = "1"
