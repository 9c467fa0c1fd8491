[package]
name = "biors"
version = "0.1.0"
edition = "2021"
publish = false

[dependencies]
bimap = "0.6"
num-traits = "0.2"
