[package]
name = "fastvect"
version = "0.1.0"
edition = "2021"
publish = false

[dependencies]
half = "2"
parking_lot = "0.12"
postcard = { version = "1", features = ["alloc"] }
pyo3 = "0.22"
rand = "0.8"
rayon = "1"
rustc-hash = "2"
serde = { version = "1", features = ["derive"] }
