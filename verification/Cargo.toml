[package]
name = "optimism"
version = "0.1.0"
edition = "2021"
publish = false

[dependencies]
crossbeam-channel = "0.5"
metrics = "0.21"
parking_lot = "0.12"
rayon = "1"
revm = { version = "22", default-features = false, features = ["std"] }
thiserror = "1"
