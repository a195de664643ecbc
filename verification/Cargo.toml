[package]
name = "voxelland"
version = "0.1.0"
edition = "2021"
publish = false

[dependencies]
dashmap = "5"
serde = { version = "1", features = ["derive"] }
bincode = "1"
noise = "0.9"
glam = "0.27"
uuid = { version = "1", features = ["v4"] }
