[package]
name = "rustyfim"
version = "0.1.0"
edition = "2021"
publish = false

[dependencies]
bitmatrix = "*"
bitvec = "*"
roaring = "*"
rayon = "*"
clap = { version = "*", features = ["derive"] }
