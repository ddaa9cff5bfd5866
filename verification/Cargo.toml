[package]
name = "file_chunker"
version = "0.1.0"
edition = "2021"
publish = false

[dependencies]
blake3 = "*"
zip = "*"
