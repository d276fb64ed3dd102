[package]
name = "codefmt"
version = "0.1.0"
edition = "2021"
publish = false

[dependencies]
memchr = "*"
anyhow = "*"
clap = { version = "*", features = ["derive"] }
dirs = "*"
serde = { version = "*", features = ["derive"] }
toml = "*"
