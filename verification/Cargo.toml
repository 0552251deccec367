[package]
name = "lvl_map"
version = "0.1.0"
edition = "2021"
publish = false

[dependencies]
anyhow = "*"
bit-set = "*"
bytemuck = "*"
encase = "*"
env_logger = "*"
glam = "*"
image = "*"
pollster = "*"
wgpu = "*"
winit = "*"
