[package]
name = "fact_store"
version = "0.1.0"
edition = "2021"
publish = false

[dependencies]
lazy_static = "=1.5.1"
mlua = { version = "=0.8.10", features = ["lua54", "vendored"] }
nannou = "0.18"
opencv = "*"
regex = "=1.13.1"
serde_json = "=1.0.154"
