[package]
name = "maglev"
version = "0.2.1"
edition = "2021"
publish = false

[dependencies]
primal = "*"

[dev-dependencies]
fasthash = "*"
