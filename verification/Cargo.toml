[package]
name = "pixelator"
version = "0.1.0"
edition = "2021"
publish = false

[dependencies]
image = "0.24"
rand = "0.8"
hex-rgb = "*"
gif = "0.12"
indicatif = "*"
num = "*"
clap = { version = "4", features = ["derive"] }
