[package]
name = "constriction"
version = "0.1.0"
edition = "2021"
publish = false

[dependencies]
num = "0.4"
smallvec = "1"
probability = "*"
pyo3 = "*"
numpy = "*"

[dev-dependencies]
rand_xoshiro = "0.6"
statrs = { version = "*", default-features = false }
