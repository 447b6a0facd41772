[package]
name = "voxel_world"
version = "0.1.0"
edition = "2021"
publish = false

[dependencies]
bytemuck = { version = "1", features = ["derive"] }
fastrand = "1.9"
glam = { version = "0.24", features = ["bytemuck"] }
num = "0.4"
vulkano = "0.33"
vulkano-shaders = "0.33"
vulkano-win = "0.33"
winit = "0.28"
