[package]
name = "coinbot"
version = "0.1.0"
edition = "2021"
publish = false

[dependencies]
rand = "0.8"
smol = "1"
twitchchat = { version = "0.14", features = ["smol", "async"] }
