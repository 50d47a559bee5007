[package]
name = "rssubstitute"
version = "0.1.0"
edition = "2021"
publish = false

[dependencies]
chrono = { version = "0.4", default-features = false, features = ["clock", "std"] }
evalexpr = "11"
uuid = { version = "1", features = ["v4"] }
pyo3 = { version = "0.22", features = ["extension-module", "abi3-py38"] }

[dev-dependencies]
regex = "1"
