[package]
name = "flowgrid"
version = "0.1.0"
edition = "2021"
publish = false

[dependencies]
num_cpus = "1"
serde_json = "1"
