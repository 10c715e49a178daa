[package]
name = "aoc_2025"
version = "0.1.0"
edition = "2021"
publish = false

[dependencies]
bit-vec = "*"
itertools = "*"
pathfinding = "*"
rayon = "*"
z3 = "*"
