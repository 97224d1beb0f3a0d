[package]
name = "plover_hatchery"
version = "0.1.0"
edition = "2021"
publish = false

[dependencies]
regex = "1"
pyo3 = "0.23"
