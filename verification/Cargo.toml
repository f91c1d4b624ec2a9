[package]
name = "conf2env"
version = "0.1.0"
edition = "2021"
publish = false

[dependencies]
serde_json = "*"
serde_yaml = "*"
toml = "*"
clap = { version = "*", features = ["derive"] }
