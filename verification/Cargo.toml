[package]
name = "fastdbf"
version = "0.5.2"
edition = "2021"
publish = false

[dependencies]
encoding_rs = "0.8"
pyo3 = "0.23"
