[package]
name = "mountforge"
version = "0.1.0"
edition = "2021"
publish = false

[dependencies]
noise = "*"
serde = { version = "*", features = ["derive"] }
bincode = "1"
