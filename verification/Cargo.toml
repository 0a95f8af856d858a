[package]
name = "g1t"
version = "0.1.0"
edition = "2021"
publish = false

[dependencies]
sha1 = "=0.10.7"
vfs = "=0.12.2"
clap = { version = "=4.6.7", features = ["derive"] }
crossterm = "=0.28.1"
ratatui = "=0.29.0"
tui-textarea = "=0.7.0"

[dev-dependencies]
serde_json = "=1.0.154"
