[package]
name = "grid2d"
version = "0.1.0"
edition = "2021"
publish = false

[dependencies]
bytes_parser = "=0.1.5"
image = { version = "=0.24.9", default-features = false, features = ["png"] }
