[package]
name = "filekv"
version = "0.1.0"
edition = "2021"
publish = false

[dependencies]
tokio = { version = "1", features = ["fs", "io-util", "sync", "rt-multi-thread", "macros"] }
