[package]
name = "fca"
version = "0.1.0"
edition = "2021"
publish = false

[dependencies]
bit-set = "0.8"

[dev-dependencies]
rand = "0.8"
