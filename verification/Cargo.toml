[package]
name = "engram"
version = "0.1.0"
edition = "2021"
publish = false

[dependencies]
serde_json = "=1.0.151"
chrono = "=0.4.45"
rusqlite = { version = "=0.40.2", features = ["bundled"] }
clap = { version = "=4.6.7", features = ["derive"] }
