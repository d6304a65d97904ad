[package]
name = "rustroperiods"
version = "0.1.0"
edition = "2021"
publish = false

[dependencies]
rand = "=0.8.8"
rand_distr = "=0.4.3"
pyo3 = "=0.20.3"
numpy = "=0.20.0"
