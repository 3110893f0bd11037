[package]
name = "ai_2048"
version = "0.1.0"
edition = "2021"
publish = false

[dependencies]
fastrand = "*"
rayon = "*"
transpose = "*"
