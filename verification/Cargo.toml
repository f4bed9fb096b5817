[package]
name = "httpx_urls"
version = "0.1.0"
edition = "2021"
publish = false

[dependencies]
indexmap = "2"
num-bigint = "0.4"
regex = "1"
pyo3 = { version = "0.25", features = ["num-bigint"] }
