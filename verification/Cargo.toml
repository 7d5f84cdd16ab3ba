[package]
name = "luminal"
version = "0.1.0"
edition = "2021"
publish = false

[dependencies]
tinyvec = "=1.13.3"
petgraph = "=0.8.3"
rustc-hash = "=2.1.3"
safetensors = "=0.8.0"
memmap2 = "=0.9.12"
half = "=2.7.1"
gemm = "=0.19.0"
cudarc = { version = "=0.19.10", features = ["cuda-12080"] }
metal = "=0.33.0"
