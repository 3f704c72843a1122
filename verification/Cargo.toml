[package]
name = "tunadb"
version = "0.1.0"
edition = "2021"
publish = false

[dependencies]
anyhow = "*"
clap = { version = "*", features = ["derive"] }
home = "*"
serde = { version = "*", features = ["derive"] }
toml = "*"
