[package]
name = "path_finding"
version = "0.1.0"
edition = "2021"
publish = false

[dependencies]
petgraph = "*"
