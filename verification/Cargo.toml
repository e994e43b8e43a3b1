[package]
name = "zmq_core"
version = "0.1.0"
edition = "2021"
publish = false

[dependencies]
crossbeam = "*"
tokio = { version = "*", features = ["rt", "net", "io-util", "sync", "macros"] }
futures = "*"
bytes = "*"
async-trait = "*"
