[package]
name = "zk_garble"
version = "0.1.0"
edition = "2021"
publish = false

[dependencies]
perf-event = "=0.4.9"

[dev-dependencies]
aes = "0.8"
