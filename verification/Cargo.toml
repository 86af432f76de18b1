[package]
name = "iffbdd"
version = "0.1.0"
edition = "2021"
publish = false

[dependencies]
blas = "=0.22.0"
openblas-src = { version = "=0.10.16", default-features = false, features = ["system", "rustls"] }
csv = "=1.4.0"
rand = "=0.9.5"
