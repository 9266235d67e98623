[package]
name = "noisefilter"
version = "0.1.0"
edition = "2021"
publish = false

[dependencies]
image = "=0.18.0"
rand = "=0.4.6"
