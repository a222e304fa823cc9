[package]
name = "mac-gate"
version = "0.1.0"
edition = "2021"
publish = false

[dependencies]
hickory-proto = "*"
libc = "*"
serde = { version = "1", features = ["derive"] }
socket2 = { version = "*", features = ["all"] }
tokio = { version = "1", features = ["full"] }
toml = "*"
