[package]
name = "langfile"
version = "0.1.0"
edition = "2021"
publish = false

[dependencies]
once_cell = "1"
rayon = "1"
