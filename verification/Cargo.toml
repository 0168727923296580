[package]
name = "cim"
version = "0.1.0"
edition = "2021"
publish = false

[dependencies]
clap = { version = "=4.6.7", features = ["derive"] }
itertools = "=0.12.1"
nalgebra = "=0.32.6"
rand = "=0.8.8"
