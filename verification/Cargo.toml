[package]
name = "stylance"
version = "0.1.0"
edition = "2021"
publish = false

[dependencies]
siphasher = "*"
anyhow = "*"
clap = { version = "*", features = ["derive"] }
notify = "*"
serde = { version = "*", features = ["derive"] }
tokio = { version = "*", features = ["rt", "macros", "sync", "time"] }
tokio-stream = "*"
toml = "*"
walkdir = "*"
