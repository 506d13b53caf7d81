[package]
name = "gameoflife"
version = "0.1.0"
edition = "2021"
publish = false

[dependencies]
clap = "*"
rand = "*"
serde = { version = "*", features = ["derive"] }
serde_json = "*"
termion = "*"
