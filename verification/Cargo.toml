[package]
name = "cuda_lbm"
version = "0.1.0"
edition = "2021"
publish = false

[dependencies]
anyhow = "1"
libc = "0.2"
nvml-wrapper = "*"
serde_json = "1"
cudarc = { version = "*", default-features = false, features = ["std", "driver", "nvrtc", "dynamic-loading", "cuda-12080"] }
