[package]
name = "whiledb_nom"
version = "0.1.0"
edition = "2021"
publish = false

[dependencies]
nom = "7"
text_io = "0.1"
pyo3 = "0.20"
