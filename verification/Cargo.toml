[package]
name = "layered_vfs"
version = "0.1.0"
edition = "2021"
publish = false

[dependencies]
caseless = "0.2"
unicode-normalization = "0.1"
