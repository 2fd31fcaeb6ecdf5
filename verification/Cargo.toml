[package]
name = "yoru"
version = "0.1.0"
edition = "2021"
publish = false

[dependencies]
bytemuck = { version = "1", features = ["derive"] }
cosmic-text = "0.11"
env_logger = "0.11"
kurbo = "0.11"
softbuffer = "0.4"
tiny-skia = "0.11"
winit = "0.30"
