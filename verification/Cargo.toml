[package]
name = "rust_bit_cask_db"
version = "0.1.0"
edition = "2021"
publish = false

[dependencies]
chrono = "*"
rand = "0.8"
