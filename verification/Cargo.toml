[package]
name = "ptr_audit"
version = "0.1.0"
edition = "2021"
publish = false

[dependencies]
regex = "=1.13.1"
clap = { version = "4", features = ["derive"] }
color-eyre = "0.6"
emojis = "*"
owo-colors = { version = "*", features = ["supports-colors"] }
hickory-client = "=0.24.4"
hickory-resolver = "=0.24.4"
