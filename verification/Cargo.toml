[package]
name = "jerky"
version = "0.1.0"
edition = "2021"
publish = false

[dependencies]
anybytes = "*"
num-traits = "*"

[dev-dependencies]
rand = "*"
rand_chacha = "*"
