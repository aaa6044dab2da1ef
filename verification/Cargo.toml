[package]
name = "process-tab-manager"
version = "0.1.0"
edition = "2021"
publish = false

[dependencies]
x11rb = "=0.13.2"
serde = { version = "=1.0.229", features = ["derive"] }
serde_json = "=1.0.154"
anyhow = "=1.0.104"
dirs = "=5.0.1"
