[package]
name = "tfs_pages"
version = "0.1.0"
edition = "2021"
publish = false

[dependencies]
lz4-compress = "*"
seahash = "*"
