[package]
name = "qwato"
version = "0.3.0"
edition = "2021"
publish = false

[dependencies]
anyhow = "*"
chrono = "*"
clap = { version = "*", features = ["derive"] }
colored = "*"
dirs = "*"
serde = { version = "*", features = ["derive"] }
toml = "*"

[dev-dependencies]
regex = "*"
