[package]
name = "aoc_2025"
version = "0.1.0"
edition = "2021"
publish = false

[dependencies]
fancy-regex = "*"
rayon = "*"
good_lp = { version = "*", default-features = false, features = ["microlp"] }
