[package]
name = "primerug"
version = "0.1.0"
edition = "2021"
publish = false

[dependencies]
rug = { version = "=1.30.0", default-features = false, features = ["integer"] }
gmp-mpfr-sys = { version = "=1.7.1", default-features = false, features = ["use-system-libs"] }
rand = "=0.8.8"
bytemuck = "=1.25.2"
clap = { version = "=4.6.7", features = ["derive"] }
crossbeam-channel = "=0.5.17"
