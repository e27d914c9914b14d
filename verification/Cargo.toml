[package]
name = "axial"
version = "0.1.0"
edition = "2021"
publish = false

[dependencies]
bytemuck = "1"
pollster = { version = "0.3", features = ["macro"] }
rand = "0.8"
winit = { version = "0.29", default-features = false, features = ["rwh_06", "x11"] }
