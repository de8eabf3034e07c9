[package]
name = "rediskv"
version = "0.1.0"
edition = "2021"
publish = false

[dependencies]
crc64 = "*"
glob = "*"
tokio = { version = "*", features = ["full"] }
