[package]
name = "attention"
version = "0.1.0"
edition = "2021"
publish = false

[dependencies]
clap = { version = "*", features = ["derive"] }
dam = "*"
itertools = "*"
num = "*"

[dev-dependencies]
fastrand = "*"
ndarray = "*"
