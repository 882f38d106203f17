[package]
name = "scylla_codec"
version = "0.1.0"
edition = "2021"
publish = false

[dependencies]
scylla = "*"
tokio = { version = "*", features = ["full"] }
uuid = { version = "*", features = ["v4"] }

[dev-dependencies]
num-bigint = "*"
