[package]
name = "passphrase"
version = "0.1.0"
edition = "2021"

[dependencies]
rand = "0.8"
clap = { version = "4", features = ["derive"] }
