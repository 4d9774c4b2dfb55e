[package]
name = "nebula"
version = "0.1.0"
edition = "2021"
publish = false

[dependencies]
anyhow = "1"
tokio = { version = "1", features = ["sync", "rt-multi-thread", "macros", "time", "net"] }
tokio-postgres = "0.7"
kvptree = "*"
rand = "0.8"
rsa = "0.9"
crossbeam-channel = "0.5"
iced = { version = "0.10", default-features = false, features = ["tokio"] }
