[package]
name = "lasgun"
version = "0.1.0"
edition = "2021"
publish = false

[dependencies]
num_cpus = "=1.17.0"
partition = "=0.1.2"
obj = "=0.9.1"
cgmath = "=0.18.0"
image = { version = "=0.24.9", default-features = false, features = ["png"] }
