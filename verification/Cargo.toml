[package]
name = "raytracer_challenge"
version = "0.1.0"
edition = "2021"
publish = false

[dependencies]
chrono = { version = "0.4", default-features = false, features = ["clock", "std"] }
image = { version = "*", default-features = false, features = ["png"] }
num_cpus = "*"
piston_window = "*"
threadpool = "*"
