[package]
name = "tetra3"
version = "0.9.0"
edition = "2021"
publish = false

[dependencies]
image = { version = "=0.25.10", default-features = false }
numeris = { version = "=0.6.0", features = ["imageproc"] }
numpy = "=0.30.0"
postcard = { version = "=1.1.3", features = ["alloc"] }
pyo3 = { version = "=0.30.1", features = ["abi3-py39"] }
rayon = "=1.12.0"
serde = { version = "=1.0.229", features = ["derive"] }
tracing = "=0.1.44"
web-time = "=1.1.0"
