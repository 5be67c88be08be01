[package]
name = "dirmap"
version = "0.1.0"
edition = "2021"
publish = false

[dependencies]
ahash = { version = "=0.8.12", default-features = false, features = ["std"] }
colored = "=2.2.0"
thiserror = "=1.0.69"
