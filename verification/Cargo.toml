[package]
name = "secret_santa"
version = "0.1.0"
edition = "2021"
publish = false

[dependencies]
anyhow = "1"
clap = { version = "4", features = ["derive"] }
csv = "1"
rand = "0.8"
regex = "1"
serde = { version = "1", features = ["derive"] }
toml = "0.8"
