[package]
name = "aoc2023"
version = "0.1.0"
edition = "2021"
publish = false

[dependencies]
clap = "4"

[dev-dependencies]
nom = "7"
