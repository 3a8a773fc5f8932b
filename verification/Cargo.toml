[package]
name = "voxel_life"
version = "0.1.0"
edition = "2021"
publish = false

[dependencies]
bevy = { version = "0.17", default-features = false }
ndshape = "0.3"
sparse_linear_assignment = "*"
