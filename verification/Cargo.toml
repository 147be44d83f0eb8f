[package]
name = "ss"
version = "0.1.0"
edition = "2021"
publish = false

[dependencies]
anyhow = "=1.0.104"
base64 = "=0.22.1"
crossterm = "=0.28.1"
imagesize = "=0.13.0"
pulldown-cmark = { version = "=0.12.2", default-features = false }
ratatui = "=0.29.0"
regex = "1"
serde = { version = "=1.0.229", features = ["derive"] }
serde_yaml = "=0.9.34"
syntect = { version = "=5.3.0", default-features = false, features = ["default-fancy"] }
