[package]
name = "memory_network"
version = "0.1.0"
edition = "2021"
publish = false

[dependencies]
async-std = "1"
async-trait = "0.1"
bincode = "1.3"
custom_debug = "0.5"
dashmap = "5"
flume = "0.10"
rand = "0.8"
serde = { version = "1", features = ["derive"] }
snafu = "0.7"
tracing = "0.1"
