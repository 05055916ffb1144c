[package]
name = "template_miner"
version = "0.1.0"
edition = "2021"
publish = false

[dependencies]
fancy-regex = "*"
regex = "*"
serde = { version = "*", features = ["derive"] }
toml = "*"
