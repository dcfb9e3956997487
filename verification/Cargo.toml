[package]
name = "davimci"
version = "0.1.0"
edition = "2021"
publish = false

[dependencies]
anyhow = "1"
crossterm = "*"
ratatui = "*"
rustix = { version = "1", features = ["event", "stdio", "termios"] }
serde = { version = "1", features = ["derive"] }
serde_json = "1"
thiserror = "2"
wgpu = "*"
