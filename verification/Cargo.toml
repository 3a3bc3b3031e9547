[package]
name = "rlox"
version = "0.1.0"
edition = "2021"
publish = false

[dependencies]
fnv = "1.0.7"
anyhow = "1"
clap = { version = "4", features = ["derive"] }
