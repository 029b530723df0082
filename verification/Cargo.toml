[package]
name = "md5_many"
version = "0.1.0"
edition = "2021"
publish = false

[dependencies]
fearless_simd = "=0.7.0"

[dev-dependencies]
md-5 = "=0.10.6"
