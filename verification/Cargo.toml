[package]
name = "turbo_base64"
version = "0.1.0"
edition = "2021"
publish = false

[dev-dependencies]
base64 = "*"
rand = "*"
