[package]
name = "scene_layers"
version = "0.1.0"
edition = "2021"
publish = false

[dependencies]
failure = "=0.1.8"
flo_stream = "=0.7.1"
