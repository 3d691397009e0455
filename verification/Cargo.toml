[package]
name = "sobol_scramble"
version = "0.1.0"
edition = "2021"
publish = false

[dependencies]
clap = "2"
png_encode_mini = "0.1"
rand = "0.8"
rayon = "1"
siphasher = "0.3"
