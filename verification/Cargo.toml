[package]
name = "simplex_bigm"
version = "0.1.0"
edition = "2021"
publish = false

[dependencies]
fraction = "=0.17.0"
anyhow = "=1.0.104"
