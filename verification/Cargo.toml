[package]
name = "xenotech"
version = "0.1.0"
edition = "2021"
publish = false

[dependencies]
flate2 = "1.0"
bincode = "1.3"
serde = { version = "1", features = ["derive"] }
noise = "0.8"
nalgebra = "0.32"
lerp = "*"
crossbeam = "0.8"
