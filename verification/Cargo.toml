[package]
name = "codecraft_bot"
version = "0.1.0"
edition = "2021"
publish = false

[dependencies]
rand = "0.8"
itertools = "0.10"
serde = { version = "1", features = ["derive"] }
serde_json = "1"
