[package]
name = "drift"
version = "0.1.0"
edition = "2021"
publish = false

[dependencies]
anyhow = "1"
clang = "2"
gdck-syntax = "*"
serde = { version = "1", features = ["derive"] }
serde_json = "1"
toml = "*"
dylint_linting = "*"
clippy_utils = "*"
