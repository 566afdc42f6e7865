[package]
name = "carsync"
version = "0.1.0"
edition = "2021"
publish = false

[dependencies]
anyhow = "1"
clap = { version = "4", features = ["derive"] }
indicatif = "0.17"
memmap2 = "0.9"
rayon = "1"
sha2 = "0.10"
walkdir = "2"
zstd = "0.13"
