[package]
name = "ged"
version = "0.1.0"
edition = "2021"
publish = false

[dependencies]
anyhow = "1"
clap = { version = "3", features = ["derive"] }
shlex = "1"
tempfile = "3"
