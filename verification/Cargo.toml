[package]
name = "hotshot-new-protocol"
version = "0.1.0"
edition = "2021"
publish = false

[dependencies]
rand = "0.8"
csv = "1"
serde = { version = "1", features = ["derive"] }
time = "0.3"
libc = "0.2"
parking_lot = "0.12"
clap = { version = "4", features = ["derive"] }
anyhow = "1"
thiserror = "1"
