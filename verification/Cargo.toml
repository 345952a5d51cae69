[package]
name = "timegrid"
version = "0.1.0"
edition = "2021"
publish = false

[dependencies]
chrono = { version = "0.4", features = ["serde"] }
pyo3 = { version = "0.25", features = ["chrono", "extension-module", "abi3-py39"] }
serde = { version = "1", features = ["derive"] }
serde_json = "1"
