[package]
name = "sqs"
version = "0.3.3"
edition = "2021"
publish = false

[dependencies]
chrono = { version = "0.4", features = ["serde"] }
clap = { version = "4", features = ["derive"] }
crossterm = "*"
dialoguer = "*"
rand = "*"
ratatui = "*"
rusqlite = { version = "*", features = ["bundled"] }
serde = { version = "1", features = ["derive"] }
serde_yaml = "0.9"
shell-words = "1"
thiserror = "*"
toml = "*"

[dev-dependencies]
tempfile = "3"
