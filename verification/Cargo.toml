[package]
name = "risk_predictor_core"
version = "0.1.0"
edition = "2021"
publish = false

[dependencies]
pyo3 = "*"
rand = "*"
rand_distr = "*"
rayon = "*"
serde = { version = "*", features = ["derive"] }
statrs = "*"
