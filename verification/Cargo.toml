[package]
name = "twisterl"
version = "0.1.0"
edition = "2021"
publish = false

[dependencies]
anyhow = "1"
nalgebra = "0.33"
pyo3 = "0.23"
rand = "0.8"
rayon = "1"
