[package]
name = "jsonscan"
version = "0.1.0"
edition = "2021"
publish = false

[dependencies]
anyhow = "*"
memmap = "*"
rayon = "*"
structopt = "*"
