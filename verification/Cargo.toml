[package]
name = "mpegts_finder"
version = "0.1.0"
edition = "2021"
publish = false

[dependencies]
anyhow = "*"
clap = { version = "*", features = ["derive"] }
clap-handler = "*"

[dev-dependencies]
serde_json = "*"
