[package]
name = "puzzle_solvers"
version = "0.1.0"
edition = "2021"
publish = false

[dependencies]
itertools = "*"
unicode-segmentation = "*"
