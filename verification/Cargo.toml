[package]
name = "chatline"
version = "0.1.0"
edition = "2021"
publish = false

[dependencies]
ansi_term = "=0.12.1"
anyhow = "=1.0.104"
base64 = "=0.23.1"
reqwest = { version = "=0.13.5", default-features = false, features = ["blocking"] }
smol = "=2.0.2"
twitchchat = { version = "=0.14.8", features = ["smol", "async"] }
