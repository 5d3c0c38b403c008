[package]
name = "pestr"
version = "0.1.0"
edition = "2021"
publish = false

[dependencies]
clap = { version = "3", features = ["derive"] }
dirs = "4"
regex = "1"
serde = { version = "1", features = ["derive"] }
serde_json = "1"
shellexpand = "2"
toml = "0.5"
