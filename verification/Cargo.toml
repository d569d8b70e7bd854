[package]
name = "matrix_mult"
version = "0.1.0"
edition = "2021"
publish = false

[dependencies]
ndarray = "=0.16.1"
rayon = "1.10"
smallvec = "1.13"
time = "0.1"
faster = "0.5"
packed_simd = "0.3"

[dev-dependencies]
rand = "0.8"
