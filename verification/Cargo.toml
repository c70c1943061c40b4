[package]
name = "tile_archive"
version = "0.1.0"
edition = "2021"
publish = false

[dependencies]
memmap2 = "*"
serde_json = "*"
