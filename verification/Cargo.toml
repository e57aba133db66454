[package]
name = "canalyzer"
version = "0.1.0"
edition = "2021"
publish = false

[dependencies]
anyhow = "1"
crossterm = "0.27"
ratatui = "0.25"
serde = { version = "1", features = ["derive"] }
serde_json = "1"
serde_with = "3"
