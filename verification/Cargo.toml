[package]
name = "routed_turboquant"
version = "0.1.0"
edition = "2021"
publish = false

[dependencies]
rand = "0.8"
rayon = "1"
turbovec = "*"
pyo3 = "0.22"
numpy = "0.22"
