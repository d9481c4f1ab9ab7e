[package]
name = "broker"
version = "0.1.0"
edition = "2021"
publish = false

[dependencies]
globset = "0.4"
hex = "0.4"
indextree = "4"
rand = "0.8"
tokio = { version = "1", features = ["net", "io-util", "rt", "macros", "sync"] }
tokio-stream = { version = "0.1", features = ["net"] }
