[package]
name = "general-mna"
version = "0.1.0"
edition = "2021"
publish = false

[dependencies]
general-spice-core = "*"
continuous-blocks = "*"
pwl-devices = "*"
pyo3 = "*"
