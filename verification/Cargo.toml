[package]
name = "openstreet"
version = "0.1.0"
edition = "2021"
publish = false

[dependencies]
fast_paths = "=1.0.0"
