[package]
name = "vmdef"
version = "0.1.0"
edition = "2021"
publish = false

[dependencies]
hex = "0.4"
anyhow = "1"
bytes = "1"
serde = { version = "1", features = ["derive"] }
serde_json = "1"
serde_with = "3"
pyo3 = "*"
