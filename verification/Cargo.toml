[package]
name = "evm_decoder"
version = "0.1.0"
edition = "2021"
publish = false

[dependencies]
hex = "0.4"
lru_time_cache = "0.11"
ethabi = { version = "18", default-features = false, features = ["std"] }
serde = { version = "1", features = ["derive"] }
tokio = { version = "1", features = ["rt", "rt-multi-thread"] }
tokio-postgres = "0.7"
pyo3 = "0.20"
