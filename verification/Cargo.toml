[package]
name = "block_compression"
version = "0.1.0"
edition = "2021"
publish = false

[dependencies]
half = "2"
bytemuck = { version = "1", features = ["derive"] }
wgpu = "24"
pollster = "0.4"
image = { version = "0.25", default-features = false, features = ["png"] }
ddsfile = "0.5"
