[package]
name = "aoc2021"
version = "0.1.0"
edition = "2021"
publish = false

[dependencies]
hex = "0.4"
nom = "7"
