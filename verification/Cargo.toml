[package]
name = "h41"
version = "0.1.0"
edition = "2021"
publish = false

[dependencies]
axum = "=0.8.9"
clap = { version = "=4.6.7", features = ["derive"] }
crossterm = "=0.28.1"
open = "=5.4.5"
ratatui = "=0.29.0"
serde = { version = "=1.0.229", features = ["derive"] }
serde_json = "=1.0.154"
tokio = { version = "=1.54.1", features = ["macros", "rt-multi-thread", "net"] }

[dev-dependencies]
regex = "1"
