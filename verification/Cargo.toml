[package]
name = "dezero"
version = "0.1.0"
edition = "2021"
publish = false

[dependencies]
ndarray = { version = "0.16", features = ["approx"] }

[dev-dependencies]
ndarray-rand = "0.15"
