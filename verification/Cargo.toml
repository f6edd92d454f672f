[package]
name = "wgpu_mandelbrot"
version = "0.1.0"
edition = "2021"
publish = false

[dependencies]
wgpu = "0.14"
winit = { version = "0.27", default-features = false, features = ["x11"] }
pollster = "0.2"
bytemuck = { version = "1", features = ["derive"] }
log = "0.4"
env_logger = "0.9"
num_cpus = "1"
rayon = "1"
