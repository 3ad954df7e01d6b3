[package]
name = "music_organizer"
version = "0.1.0"
edition = "2021"
publish = false

[dependencies]
anyhow = "*"
clap = { version = "*", features = ["derive"] }
indicatif = "*"
metaflac = "*"
serde = { version = "*", features = ["derive"] }
serde_json = "*"
serde_with = "*"
