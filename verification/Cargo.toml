[package]
name = "tmu_rs"
version = "0.1.0"
edition = "2021"
publish = false

[dependencies]
bytemuck = { version = "=1.25.2", features = ["extern_crate_alloc"] }
pollster = "=1.0.1"
rayon = "=1.12.0"
wgpu = "=30.0.1"
