[package]
name = "ctrlb_decompose"
version = "0.1.0"
edition = "2021"
publish = false

[dependencies]
anyhow = "1"
chrono = "0.4"
clap = { version = "4", features = ["derive"] }
lru = "*"
rayon = "1"
regex = "1"
