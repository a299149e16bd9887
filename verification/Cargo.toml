[package]
name = "sketches"
version = "0.1.0"
edition = "2021"
publish = false

[dependencies]
fixedbitset = "0.4"
rand = "0.8"
