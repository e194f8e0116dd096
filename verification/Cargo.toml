[package]
name = "bftml"
version = "0.1.0"
edition = "2021"
publish = false

[dependencies]
bytemuck = { version = "=1.25.2", features = ["derive"] }
iced = { version = "=0.14.0", default-features = false, features = ["thread-pool", "x11"] }
indexmap = "=2.14.2"
pollster = "=1.0.1"
wgpu = "=28.0.0"
wgpu_macros = "=0.1.0"
winit = "=0.30.13"
zerocopy = { version = "=0.8.63", features = ["derive"] }

[dev-dependencies]
winnow = "=0.7.15"
