[package]
name = "concorde"
version = "0.1.0"
edition = "2021"
publish = false

[dependencies]
pyo3 = "=0.30.1"
numpy = "=0.30.0"
uuid = { version = "=1.29.0", features = ["v7"] }
toml = "=1.1.8"
serde = { version = "=1.0.229", features = ["derive"] }
ordered-float = "=5.5.1"
nom = "8"
