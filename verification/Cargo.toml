[package]
name = "hanji"
version = "0.1.0"
edition = "2021"
publish = false

[dependencies]
unicode-segmentation = "1"
libc = "0.2"
