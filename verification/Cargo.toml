[package]
name = "gicp_slam_cuda"
version = "0.1.0"
edition = "2021"
publish = false

[dependencies]
anyhow = "1"
cudarc = { version = "*", default-features = false, features = ["std", "driver", "nvrtc", "dynamic-loading", "cuda-12080"] }
nalgebra = "*"
ndarray = "*"
ndarray-linalg = { version = "*", default-features = false }
regex = "1"
serde = { version = "1", features = ["derive"] }
serde_json = "1"
