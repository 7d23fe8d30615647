[package]
name = "keramics_drivers"
version = "0.1.0"
edition = "2021"
publish = false

[dependencies]
keramics-checksums = "*"
keramics-compression = "*"
keramics-core = "*"
keramics-encodings = "*"
keramics-sigscan = "*"
keramics-types = "*"
