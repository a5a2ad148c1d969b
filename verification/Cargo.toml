[package]
name = "sundial"
version = "0.1.0"
edition = "2021"
publish = false

[dependencies]
flate2 = "1"
thiserror = "2"
anyhow = "1"
clap = { version = "4", features = ["derive"] }
serde = { version = "1", features = ["derive"] }
serde_json = "1"
fastrand = "2"
web-time = "1"

[dev-dependencies]
