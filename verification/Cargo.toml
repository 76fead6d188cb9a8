[package]
name = "nifty_net"
version = "0.1.0"
edition = "2021"
publish = false

[dependencies]
bevy = { version = "0.13", default-features = false }
bincode = "1.3"
rand = "0.8"
serde = { version = "1", features = ["derive"] }
