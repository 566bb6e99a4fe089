[package]
name = "oreilly_concurrent"
version = "0.1.0"
edition = "2021"
publish = false

[dependencies]
anyhow = "1"
futures = "0.3"
signal-hook = "0.3"
