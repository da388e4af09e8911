[package]
name = "handheld"
version = "0.1.0"
edition = "2021"
publish = false

[dependencies]
anyhow = "1"
wasmtime = "=46.0.3"
minifb = "*"
cpal = "*"
