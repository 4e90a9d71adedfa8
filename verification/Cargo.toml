[package]
name = "pure_rust_locales"
version = "0.1.0"
edition = "2021"
publish = false

[dependencies]
anyhow = "*"
cargo_metadata = "*"
indenter = "*"
itertools = "*"
sha2 = "*"
