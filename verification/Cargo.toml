[package]
name = "otelmeister"
version = "0.1.0"
edition = "2021"
publish = false

[dependencies]
hex = "*"
duration-human = "*"
anyhow = "*"
clap = { version = "*", features = ["derive"] }
crossterm = "*"
patharg = "*"
serde = { version = "*", features = ["derive"] }
serde_json = "*"
