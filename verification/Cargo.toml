[package]
name = "replica_crdt"
version = "0.1.0"
edition = "2021"
publish = false

[dependencies]
bincode = "1"
pyo3 = "0.23"
serde = { version = "1", features = ["derive"] }
