[package]
name = "portman"
version = "0.1.0"
edition = "2021"
publish = false

[dependencies]
sysinfo = "0.30"
anyhow = "1"
clap = { version = "4", features = ["derive"] }
colored = "2"
chrono = "0.4"
nix = { version = "0.27", features = ["signal"] }
tokio = { version = "1", features = ["full"] }
crossterm = "0.27"
ratatui = "0.23"
axum = "0.7"
tower-http = { version = "0.5", features = ["cors"] }
serde = { version = "1", features = ["derive"] }
serde_json = "1"
