[package]
name = "passmogu"
version = "0.1.0"
edition = "2021"
publish = false

[dependencies]
aws-lc-rs = "1"
zeroize = "1"
clap = { version = "4", features = ["derive"] }
