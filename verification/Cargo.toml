[package]
name = "pairwise_rank"
version = "0.1.0"
edition = "2021"

[dependencies]
rand = "0.8"
ndarray = "0.15"
ndarray-linalg = "0.16"
csv = "1"
