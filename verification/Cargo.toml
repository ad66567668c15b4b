[package]
name = "ubq"
version = "5.0.0"
edition = "2021"
publish = false

[dependencies]
clap = { version = "4", features = ["derive"] }
core_affinity = "0.8"
crossbeam-queue = "0.3"
crossbeam-utils = "0.8"
libc = "0.2"
portable-atomic = "1"
serde = { version = "1", features = ["derive"] }
serde_json = "1"
toml = "0.8"
