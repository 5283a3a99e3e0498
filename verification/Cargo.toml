[package]
name = "calc24"
version = "0.1.0"
edition = "2021"
publish = false

[dependencies]
num-rational = "*"
num-traits = "*"
rayon = "*"
tracing = "*"
tracing-subscriber = "*"
