[package]
name = "riffle"
version = "0.1.0"
edition = "2021"
publish = false

[dependencies]
sha1 = "0.10"
hex = "0.4"
anyhow = "1"
crossterm = "*"
futures = "0.3"
humansize = "*"
ratatui = "*"
reqwest = { version = "*", default-features = false }
tokio = { version = "1", features = ["rt-multi-thread", "macros", "sync", "time"] }
