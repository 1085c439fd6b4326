[package]
name = "tree_jump"
version = "0.1.0"
edition = "2021"
publish = false

[dependencies]
indicatif = "0.18"

[dev-dependencies]
rand = "0.8"
