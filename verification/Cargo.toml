[package]
name = "json_pointer_simd"
version = "0.1.0"
edition = "2021"
publish = false

[dependencies]
serde_json = "*"
simd-json = "*"
