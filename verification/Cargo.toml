[package]
name = "kalk"
version = "0.1.0"
edition = "2021"
publish = false

[dependencies]
pest = "=2.9.2"
pest_derive = "=2.9.2"
rustc_apfloat = "*"
