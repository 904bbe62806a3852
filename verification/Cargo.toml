[package]
name = "udptoxy"
version = "0.1.0"
edition = "2021"
publish = false

[dependencies]
clap = { version = "4", features = ["derive"] }
crossterm = "0.28"
parking_lot = "0.12"
rand = "0.9"
ratatui = "0.29"
tokio = { version = "1", features = ["macros", "net", "rt-multi-thread", "sync", "time"] }
