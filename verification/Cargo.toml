[package]
name = "sparse_solvers"
version = "0.1.0"
edition = "2021"
publish = false

[dependencies]
thiserror = "*"
miette = "*"
matrix-market-rs = "*"
