[package]
name = "pge"
version = "0.1.0"
edition = "2021"
publish = false

[dependencies]
colored = "2"
glam = "=0.34.1"
log = "0.4"
