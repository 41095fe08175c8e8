[package]
name = "vector_beam"
version = "0.1.0"
edition = "2021"
publish = false

[dependencies]
bytemuck = { version = "=1.25.2", features = ["derive"] }
glam = "0.30"
png = "=0.18.1"
pollster = "0.4"
wgpu = "29"
winit = "=0.30.13"
