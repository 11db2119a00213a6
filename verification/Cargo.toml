[package]
name = "adjoint_core"
version = "0.1.0"
edition = "2021"
publish = false

[dependencies]
bumpalo = { version = "3", features = ["collections"] }
rand = "0.8"
rand_distr = "0.4"
pyo3 = "0.22"
