[package]
name = "snap_wallet"
version = "0.1.0"
edition = "2021"
publish = false

[dependencies]
snap-coin = "*"
tokio = { version = "*", features = ["rt-multi-thread", "macros", "time"] }
futures-channel = "*"
anyhow = "*"
chrono = "*"
dirs = "*"
rand = "*"
