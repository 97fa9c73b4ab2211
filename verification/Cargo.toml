[package]
name = "draw"
version = "0.1.0"
edition = "2021"
publish = false

[dependencies]
rand = "0.8"
itertools = "0.10"
image = { version = "0.24", default-features = false, features = ["png"] }
decorum = "0.3"
