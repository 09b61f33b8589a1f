[package]
name = "feruca_mapper"
version = "0.1.0"
edition = "2021"
publish = false

[dependencies]
bincode = "2"
feruca = "*"
phf_codegen = "*"
regex = "1"
rustc-hash = "2"
serde_json = "1"
unicode-canonical-combining-class = "*"
