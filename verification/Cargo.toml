[package]
name = "vidcrop"
version = "0.1.0"
edition = "2021"
publish = false

[dependencies]
humantime = "=2.4.0"
anyhow = "1"
clap = { version = "4", features = ["derive"] }
