[package]
name = "expand-range"
version = "0.2.0"
edition = "2021"
publish = false

[dev-dependencies]
regex = "1"
