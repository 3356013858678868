[package]
name = "wren_core"
version = "0.1.0"
edition = "2021"
publish = false

[dependencies]
datafusion = "43"
serde = { version = "1", features = ["derive"] }
serde_json = "1"
serde_with = "3"
tokio = { version = "1", features = ["rt-multi-thread"] }
parking_lot = "0.12"
