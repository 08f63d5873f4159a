[package]
name = "batch_auction"
version = "0.1.0"
edition = "2021"
publish = false

[dependencies]
bigdecimal = "*"
tokio = { version = "1", features = ["io-util", "macros", "net", "rt-multi-thread", "sync", "time"] }

[dev-dependencies]
rand = "0.8"
