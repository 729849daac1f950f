[package]
name = "aoc25"
version = "0.1.0"
edition = "2021"
publish = false

[dependencies]
geo = "*"
grid = "=1.0.1"
pathfinding = "*"
