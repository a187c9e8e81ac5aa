[package]
name = "lsph"
version = "0.1.0"
edition = "2021"
publish = false

[dependencies]
geohash = "*"
num-traits = "0.2"
smallvec = "1"

[dev-dependencies]
rand = { version = "0.9", features = ["small_rng"] }
