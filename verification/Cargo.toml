[package]
name = "wintermute-lucid"
version = "0.2.0"
edition = "2021"
publish = false

[dependencies]
anyhow = "1"
clap = { version = "4", features = ["derive"] }
crossterm = "0.28"
ratatui = "0.29"
serde = { version = "1", features = ["derive"] }
serde_json = "1"
sigpipe = "0.1"
tokio = { version = "1", features = ["rt-multi-thread", "macros", "signal", "io-std", "io-util", "sync", "time"] }
