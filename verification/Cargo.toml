[package]
name = "voxel_engine"
version = "0.1.0"
edition = "2021"
publish = false

[dependencies]
anyhow = "1"
bincode-next = "*"
cgmath = "0.18"
crossbeam = "0.8"
rusqlite = { version = "*", features = ["bundled"] }
