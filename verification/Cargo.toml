[package]
name = "mosaic"
version = "0.1.0"
edition = "2021"
publish = false

[dependencies]
rand = "0.8"
image = "*"
libc = "0.2"
