[package]
name = "dindex"
version = "0.1.0"
edition = "2021"
publish = false

[dependencies]
hex = "0.4"
sha2 = "0.10"
zstd = "0.13"
thiserror = "2"
