[package]
name = "texture_atlas"
version = "0.1.0"
edition = "2021"
publish = false

[dependencies]
image = { version = "*", default-features = false, features = ["png"] }
wgpu = "0.4"
winit = "0.20"
cgmath = "0.17"
glsl-to-spirv = "0.1"
serde_json = "1"
