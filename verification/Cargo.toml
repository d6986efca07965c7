[package]
name = "subcipher"
version = "0.1.0"
edition = "2021"
publish = false

[dependencies]
dashmap = "5.5"
itertools = "0.12"
rand = "0.8"
rayon = "1"
