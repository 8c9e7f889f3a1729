[package]
name = "cryptatools_core"
version = "0.1.0"
edition = "2021"
publish = false

[dependencies]
clap = { version = "4", features = ["derive"] }
itertools = "0.10"
serde = { version = "1", features = ["derive"] }
serde_json = "1"
serde_with = "2"
