[package]
name = "informer"
version = "0.1.0"
edition = "2021"
publish = false

[dependencies]
clap = "2"
regex = "1"
serde = { version = "1", features = ["derive"] }
toml = "0.5"
