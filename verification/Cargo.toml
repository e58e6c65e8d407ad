[package]
name = "torchforge-data"
version = "0.0.1"
edition = "2021"
publish = false

[dependencies]
memmap2 = "0.9"
thiserror = "2"
