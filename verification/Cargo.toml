[package]
name = "objviewer"
version = "0.1.0"
edition = "2021"
publish = false

[dependencies]
bytemuck = { version = "1", features = ["derive"] }
clap = { version = "4", features = ["derive"] }
egui = "0.34"
egui-wgpu = "0.34"
egui-winit = "0.34"
env_logger = "0.11"
glam = "0.32"
log = "0.4"
pollster = "0.4"
thiserror = "2"
wgpu = "29"
winit = "0.30"
