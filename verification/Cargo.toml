[package]
name = "vacs_data"
version = "0.1.0"
edition = "2021"
publish = false

[dependencies]
clap = { version = "*", features = ["derive"] }

[dev-dependencies]
serde_json = "*"
toml = "*"
