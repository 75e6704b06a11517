[package]
name = "fitsio-pure"
version = "0.1.0"
edition = "2021"
publish = false

[dependencies]
miniz_oxide = "=0.9.1"
ndarray = "=0.17.2"
