[package]
name = "copper_sched"
version = "0.1.0"
edition = "2021"
publish = false

[dependencies]
circular-buffer = "*"
bincode = "2.0.1"
serde = { version = "1", features = ["derive"] }
serde_json = "1"
ron = "0.12"
clap = { version = "4", features = ["derive"] }
arbitrary = { version = "1", features = ["derive"] }
