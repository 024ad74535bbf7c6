[package]
name = "majin"
version = "0.1.0"
edition = "2021"
publish = false

[dependencies]
ratatui = "0.29"
serde = { version = "1", features = ["derive"] }
serde_json = "1"
