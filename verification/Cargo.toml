[package]
name = "voxel"
version = "0.1.0"
edition = "2021"
publish = false

[dependencies]
offset-allocator = "=0.2.0"
ndshape = "=0.3.0"
arc-swap = "=1.9.3"
thiserror = "=2.0.21"
enum-map = "=3.1.0"
serde = { version = "=1.0.229", features = ["derive"] }
block-mesh = "=0.2.0"
bytemuck = "=1.25.2"
bevy = { version = "=0.17.3", default-features = false }
parking_lot = "=0.12.5"
fastnoise-lite = "*"
