[package]
name = "gcrs"
version = "0.1.0"
edition = "2021"
publish = false

[dependencies]
camino = "*"
clap = { version = "*", features = ["derive"] }
color-eyre = "*"
eyre = "*"
nix = { version = "*", features = ["fs", "user"] }
