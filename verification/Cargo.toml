[package]
name = "mymq_rs"
version = "0.1.0"
edition = "2021"
publish = false

[dependencies]
tokio = { version = "1", features = ["rt-multi-thread", "macros", "sync", "time", "net", "io-util"] }
rand = "*"
anyhow = "1"
rcgen = "*"
