[package]
name = "chronos"
version = "0.1.0"
edition = "2021"
publish = false

[dependencies]
md-5 = "=0.10.6"
zstd = "=0.13.4"
serde_json = "=1.0.154"
image = { version = "0.25", default-features = false, features = ["png"] }
