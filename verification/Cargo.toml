[package]
name = "simplepaint"
version = "0.1.0"
edition = "2021"
publish = false

[dependencies]
bytemuck = { version = "*", features = ["derive"] }
egui = "*"
egui-wgpu = { version = "*", features = ["winit"] }
egui-winit = "*"
pollster = "*"
wgpu = "*"
winit = "*"
