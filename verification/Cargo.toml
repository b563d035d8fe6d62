[package]
name = "queens"
version = "0.1.0"
edition = "2021"
publish = false

[dependencies]
bit-board = "*"
itertools = "*"
clap = { version = "*", features = ["derive"] }
