[package]
name = "bezier"
version = "0.1.0"
edition = "2021"
publish = false

[dependencies]
libc = "0.2"
pyo3 = "0.22"
quadrature = "0.1"
