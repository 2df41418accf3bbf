[package]
name = "audit_box"
version = "0.1.0"
edition = "2021"
publish = false

[dependencies]
similar = { version = "*", features = ["text", "bytes"] }
clap = { version = "*", features = ["derive"] }
crossterm = "*"
dirs = "*"
notify = "*"
ratatui = "*"
tempfile = "*"
