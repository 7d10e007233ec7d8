[package]
name = "memscan"
version = "0.1.0"
edition = "2021"
publish = false

[dependencies]
nix = { version = "0.29", features = ["uio", "process"] }
rayon = "1"
