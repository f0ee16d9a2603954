[package]
name = "halo2_gpu_prover"
version = "0.1.0"
edition = "2021"
publish = false

[dependencies]
halo2_proofs = { version = "0.2", default-features = false }
ff = "0.12"
rayon = "1"
ark-std = "0.4"
cuda-runtime-sys = "0.3.0-alpha.1"
