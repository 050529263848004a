[package]
name = "duplicate-finder"
version = "0.1.0"
edition = "2021"
publish = false

[dependencies]
clap = { version = "4", features = ["derive"] }
colored = "3"
indicatif = "0.18"
rayon = "1"
sha2 = "0.11"
walkdir = "2"
