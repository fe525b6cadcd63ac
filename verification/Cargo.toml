[package]
name = "token_monitor"
version = "0.1.0"
edition = "2021"
publish = false

[dependencies]
chrono = "*"
dirs = "*"
notify = "*"
rusqlite = { version = "*", features = ["bundled"] }
serde_json = "*"
sha2 = "*"
