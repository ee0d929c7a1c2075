[package]
name = "zeronsd"
version = "0.1.0"
edition = "2021"
publish = false

[dependencies]
ipnetwork = "*"
anyhow = "*"
clap = "*"
tokio = { version = "*", features = ["rt-multi-thread", "net", "sync", "time", "macros"] }
