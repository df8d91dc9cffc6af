[package]
name = "raytracing_in_rust"
version = "0.1.0"
edition = "2021"
publish = false

[dependencies]
rand = "=0.8.8"
rand_chacha = "=0.3.1"
ultraviolet = "=0.9.2"
rayon = "=1.12.0"
image = { version = "=0.24.9", default-features = false, features = ["png"] }
confy = "=0.5.1"
serde = { version = "=1.0.229", features = ["derive"] }
minifb = "0.23"
