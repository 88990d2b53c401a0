[package]
name = "rust_drop_tax"
version = "0.1.0"
edition = "2021"
publish = false

[dependencies]
bumpalo = "3"
mimalloc = "0.1"
