[package]
name = "snake"
version = "0.1.0"
edition = "2021"
publish = false

[dependencies]
clap = "2"
fnv = "1"
piston_window = "0.120"
rand = "0.7"
rayon = "1"
