[package]
name = "online_squares"
version = "0.1.0"
edition = "2021"
publish = false

[dependencies]
tetra = { version = "=0.8.0", default-features = false, features = ["font_ttf"] }
