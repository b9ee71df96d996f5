[package]
name = "bdk_core"
version = "0.1.0"
edition = "2021"
publish = false

[dependencies]
bitcoin = { version = "0.29", features = ["serde"] }
serde = { version = "1", features = ["derive"] }
