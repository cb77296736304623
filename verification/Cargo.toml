[package]
name = "text_matcher_rs"
version = "0.1.0"
edition = "2021"
publish = false

[dependencies]
strsim = "*"
unicode-segmentation = "*"
toml = "*"
threadpool = "*"
