[package]
name = "rushnsw"
version = "0.1.0"
edition = "2021"

[dependencies]
rayon = "1"
