[package]
name = "stateright"
version = "0.31.0"
edition = "2021"
publish = false

[dependencies]
rand = "0.8"
