[package]
name = "server_tui"
version = "0.1.0"
edition = "2021"
publish = false

[dependencies]
chrono = "*"
tokio = { version = "*", features = ["rt-multi-thread", "macros", "net", "io-util", "time", "fs", "sync"] }
sysinfo = "*"
ratatui = "*"
crossterm = "*"
log = "*"
simplelog = "*"
systemctl = "*"
serde_json = "*"
