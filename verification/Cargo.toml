[package]
name = "aoc22"
version = "0.1.0"
edition = "2021"
publish = false

[dependencies]
pathfinding = "*"
regex = "*"
rsmt2 = "*"
serde_json = "*"
