[package]
name = "ascii-rat"
version = "0.1.0"
edition = "2021"
publish = false

[dependencies]
anyhow = "1"
clap = { version = "4", features = ["derive"] }
crossterm = "*"
portable-pty = "*"
rand = "0.10"
regex = "1"
rpassword = "*"
serde_json = { version = "1", features = ["raw_value"] }
serde_yaml = "0.9"
