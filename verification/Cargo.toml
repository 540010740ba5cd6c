[package]
name = "promptlab"
version = "0.1.0"
edition = "2021"
publish = false

[dependencies]
tiktoken-rs = "*"
serde = { version = "*", features = ["derive"] }
serde_json = "*"
ignore = "*"
git2 = { version = "*", default-features = false }
