[package]
name = "microflow"
version = "0.1.0"
edition = "2021"
publish = false

[dependencies]
libm = "0.2"
nalgebra = { version = "0.32", default-features = false }
simba = { version = "0.8", default-features = false }
proc-macro2 = "1"
quote = "1"
