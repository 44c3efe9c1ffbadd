[package]
name = "akuna-embed"
version = "0.1.0"
edition = "2021"
publish = false

[dependencies]
anyhow = "1"
burn = { version = "0.14.0", default-features = false }
