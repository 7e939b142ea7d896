[package]
name = "music_sampling"
version = "0.1.0"
edition = "2021"
publish = false

[dependencies]
anyhow = "*"
dirs = "*"
indicatif = "*"
serde = { version = "*", features = ["derive"] }
serde_yaml = "*"
