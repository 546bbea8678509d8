[package]
name = "gitfilter"
version = "0.1.0"
edition = "2021"
publish = false

[dependencies]
regex = "1"
num_cpus = "1"
once_cell = "1"
