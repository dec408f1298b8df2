[package]
name = "colexec"
version = "0.1.0"
edition = "2021"
publish = false

[dependencies]
ahash = "0.8"
futures = "0.3"
tokio = { version = "1", features = ["rt", "rt-multi-thread", "sync", "time", "macros"] }
tokio-stream = "0.1"
