[package]
name = "voxel_data"
version = "0.1.0"
edition = "2021"
publish = false

[dependencies]
cgmath = "0.17"
collision = "0.20"
serde = { version = "1", features = ["derive"] }
