[package]
name = "bracket_pairs"
version = "0.1.0"
edition = "2021"
publish = false

[dependencies]
serde = "1"
