[package]
name = "pots"
version = "0.1.0"
edition = "2021"
publish = false

[dependencies]
clap = "2"
csv = "1"
hex = "0.4"
rand = "0.8"
serde = { version = "1", features = ["derive"] }
