[package]
name = "pixel_transform"
version = "0.1.0"
edition = "2021"
publish = false

[dependencies]
rayon = "1"
opencv = "*"

[dev-dependencies]
rand = "0.8"
