[package]
name = "rust_data_voyager"
version = "0.1.0"
edition = "2021"
publish = false

[dependencies]
csv = "*"
