[package]
name = "rust_calc"
version = "0.1.0"
edition = "2021"

[dependencies]
rustler = "=0.32.1"
