[package]
name = "raytracer"
version = "0.1.0"
edition = "2021"
publish = false

[dependencies]
env_logger = "0.10"
glam = "0.24"
pixels = "0.13"
winit = "0.28"
winit_input_helper = "0.14"
