[package]
name = "event_streaming"
version = "0.1.0"
edition = "2021"
publish = false

[dependencies]
dirs = "5"
tokio = { version = "1", features = ["rt-multi-thread", "net", "io-util", "macros", "sync", "time"] }
