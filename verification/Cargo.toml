[package]
name = "message_localizer"
version = "0.1.0"
edition = "2021"
publish = false

[dependencies]
regex = "1"
clap = { version = "4", features = ["derive"] }
deepl-api = "0.4"
rayon = "1"
walkdir = "2"
