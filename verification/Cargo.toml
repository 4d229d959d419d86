[package]
name = "bitarray"
version = "0.1.0"
edition = "2021"
publish = false

[dependencies]
rustler = "=0.36.2"
