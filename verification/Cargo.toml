[package]
name = "black_dwarf"
version = "0.1.0"
edition = "2021"
publish = false

[dependencies]
unicode-segmentation = "*"
speedate = "*"
dirs = "*"
