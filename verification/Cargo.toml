[package]
name = "sisyphus"
version = "0.1.0"
edition = "2021"

[dependencies]
rand = "0.8"
signal-hook = "0.3"
