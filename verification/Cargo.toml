[package]
name = "big_number"
version = "1.0.0"
edition = "2021"
publish = false

[dev-dependencies]
num-bigint = "0.4"
num-traits = "0.2"
num-bigfloat = "1"
