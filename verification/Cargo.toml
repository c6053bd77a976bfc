[package]
name = "rustegrator"
version = "0.1.0"
edition = "2021"
publish = false

[dependencies]
num = "0.4"
num-bigint = "0.4"
num-rational = "0.4"
num-traits = "0.2"
rand = "0.8"
clap = { version = "4", features = ["derive"] }
