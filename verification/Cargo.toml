[package]
name = "button"
version = "0.1.0"
edition = "2021"
publish = false

[dependencies]
bit-set = "0.5"
serde = { version = "1", features = ["derive"] }
serde_json = "1"
