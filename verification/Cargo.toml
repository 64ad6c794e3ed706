[package]
name = "ray_tracing"
version = "0.1.0"
edition = "2021"
publish = false

[dependencies]
image = { version = "*", default-features = false, features = ["png", "jpeg"] }
pbr = "*"
rand = "0.8"
rayon = "*"
serde = { version = "*", features = ["derive"] }
serde_json = "*"
wavefront_obj = "*"
