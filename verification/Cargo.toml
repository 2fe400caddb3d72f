[package]
name = "ph"
version = "0.1.0"
edition = "2021"
publish = false

[dependencies]
gl = "0.14"
num_cpus = "1"
rand = "0.4"
time = "0.1"
