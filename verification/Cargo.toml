[package]
name = "betula"
version = "0.1.0"
edition = "2021"
publish = false

[dependencies]
num-traits = "0.2"
clap = { version = "4", features = ["derive"] }
ndarray = "0.16"
npyz = "0.8"
serde = { version = "1", features = ["derive"] }
serde_json = "1"
rand = "0.9"
pyo3 = "*"
numpy = "*"

[dev-dependencies]
rand = "0.9"
