[package]
name = "bucket_vec"
version = "0.1.0"
edition = "2021"
publish = false

[dependencies]
libm = "0.2"
parity-scale-codec = { version = "*", default-features = false }
