[package]
name = "sixel_graphics"
version = "0.1.0"
edition = "2021"
publish = false

[dependencies]
icy_sixel = "*"
image = { version = "*", default-features = false, features = ["png"] }
