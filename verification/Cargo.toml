[package]
name = "tilekiln"
version = "0.1.0"
edition = "2021"
publish = false

[dependencies]
bytemuck = "1"
perturbation-kernel = "*"
pollster = "*"
rand = "0.8"
wgpu = "*"
