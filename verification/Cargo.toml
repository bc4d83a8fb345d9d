[package]
name = "trait_export"
version = "0.1.0"
edition = "2021"
publish = false

[dependencies]
base64 = "0.21"
mime_guess = "2"
clap = { version = "4", features = ["derive"] }
serde = { version = "1", features = ["derive"] }
serde_json = "1"
walkdir = "2"
