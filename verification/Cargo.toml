[package]
name = "nnet"
version = "0.1.0"
edition = "2021"
publish = false

[dependencies]
rayon = "*"
image = "*"

[dev-dependencies]
bincode = "1"
