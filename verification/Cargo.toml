[package]
name = "bigfloat"
version = "0.1.0"
edition = "2021"
publish = false

[dependencies]
gmp-mpfr-sys = "1.6"
