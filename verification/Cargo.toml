[package]
name = "anneal_model"
version = "0.1.0"
edition = "2021"
publish = false

[dependencies]
faer = "*"
rand = "*"
clap = { version = "*", features = ["derive"] }
num-traits = "*"
