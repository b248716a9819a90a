[package]
name = "voxel_world_rust"
version = "0.1.0"
edition = "2021"
publish = false

[dependencies]
building-blocks = "=0.7.1"
simdnoise = "=3.1.6"
serde = { version = "=1.0.229", features = ["derive"] }
bevy = { version = "0.5", default-features = false, features = ["render"] }
bevy_flycam = "0.5"
