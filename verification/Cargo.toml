[package]
name = "verseconf"
version = "0.1.0"
edition = "2021"
publish = false

[dependencies]
regex = "1"
atty = "0.2"
serde = { version = "1", features = ["derive"] }
serde_json = "1"
anyhow = "1"
