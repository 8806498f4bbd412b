[package]
name = "bigtools"
version = "0.1.0"
edition = "2021"
publish = false

[dependencies]
libdeflater = "=1.26.1"
rustc_apfloat = "*"

[dev-dependencies]
rand = "=0.8.8"
