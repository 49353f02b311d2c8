[package]
name = "clai"
version = "0.1.0"
edition = "2021"
publish = false

[dependencies]
itertools = "0.13"
ndarray = "0.16"
rand = "0.8"
rayon = "1"
