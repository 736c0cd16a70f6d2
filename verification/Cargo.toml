[package]
name = "rsearch"
version = "0.1.0"
edition = "2021"
publish = false

[dependencies]
unicode-segmentation = "1"
clap = "2"
walkdir = "2"
mailparse = "*"
