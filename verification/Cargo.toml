[package]
name = "crowd_sim"
version = "0.1.0"
edition = "2021"
publish = false

[dependencies]
glam = "*"
ndarray = "*"
fastrand = "*"
fastrand-contrib = "*"
chrono = "*"
plotters = { version = "*", default-features = false, features = ["bitmap_backend", "bitmap_gif", "full_palette"] }
