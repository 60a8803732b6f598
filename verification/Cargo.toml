[package]
name = "repoctx"
version = "0.1.0"
edition = "2021"
publish = false

[dependencies]
anyhow = "1"
arboard = "3"
clap = { version = "4", features = ["derive"] }
globset = "0.4"
ignore = "0.4"
