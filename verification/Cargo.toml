[package]
name = "fastry"
version = "0.1.0"
edition = "2021"
publish = false

[dependencies]
pyo3 = "0.18"
pythonize = "0.18"
serde = { version = "1", features = ["derive"] }
serde_json = "1"
