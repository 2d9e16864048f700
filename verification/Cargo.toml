[package]
name = "min_turns"
version = "0.1.0"
edition = "2021"
publish = false

[dependencies]
num = "0.4"
num-traits = "0.2"

[dev-dependencies]
rand = "0.7"
