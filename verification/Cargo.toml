[package]
name = "terragen"
version = "0.1.0"
edition = "2021"
publish = false

[dependencies]
bitsetium = "*"
rand = "0.8"
rand_xoshiro = "0.6"
hecs = "*"
nalgebra = "*"
serde = { version = "1", features = ["derive"] }
tracing = "0.1"
