[package]
name = "net_use"
version = "0.1.0"
edition = "2021"
publish = false

[dependencies]
anyhow = "1"
clap = { version = "4", features = ["derive"] }
crossterm = "0.28"
libc = "0.2"
plist = "1"
ratatui = "0.29"
thiserror = "2"
tokio = { version = "1", features = ["full"] }
