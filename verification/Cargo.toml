[package]
name = "cpaste"
version = "0.1.0"
edition = "2021"
publish = false

[dependencies]
regex = "1"
rusqlite = { version = "*", features = ["bundled"] }
serde = { version = "1", features = ["derive"] }
serde_json = "1"
chrono = "0.4"
