[package]
name = "puzzle_solvers"
version = "0.1.0"
edition = "2021"
publish = false

[dependencies]
crepe = "0.1"
itertools = "0.13"
lazy_static = "1"
petgraph = "0.6"
regex = "1"
