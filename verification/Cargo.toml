[package]
name = "paintfe"
version = "0.1.0"
edition = "2021"
publish = false

[dependencies]
image = { version = "=0.25.10", default-features = false, features = ["png", "jpeg", "bmp", "gif", "webp", "tiff"] }
rhai = "=1.27.0"
rayon = "=1.12.0"
arboard = "3"
