[package]
name = "itermap"
version = "0.4.0"
edition = "2021"

[dev-dependencies]
map_vec = "*"
