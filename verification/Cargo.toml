[package]
name = "noodle"
version = "0.1.0"
edition = "2021"
publish = false

[dependencies]
unicode-normalization = "0.1"
indexmap = "1.9"
anyhow = "1"
structopt = "0.3"
zstd = "0.13"
fst = "0.4"
memmap = "0.7"
