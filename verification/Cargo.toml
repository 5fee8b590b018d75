[package]
name = "dtd_viewer"
version = "0.1.0"
edition = "2021"
publish = false

[dependencies]
indexmap = { version = "2", features = ["serde"] }
serde = { version = "1", features = ["derive"] }
serde_json = "1"
anyhow = "1"
atty = "0.2"
clap = { version = "4", features = ["derive"] }
ratatui = "0.29"
crossterm = "0.28"
