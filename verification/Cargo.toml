[package]
name = "brownian"
version = "0.1.0"
edition = "2021"
publish = false

[dependencies]
rapier2d = "0.36.1"
glam = "*"
ndarray = { version = "0.17.2", features = ["rayon"] }
bytemuck = { version = "1.25.2", features = ["derive"] }
