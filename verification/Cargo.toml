[package]
name = "oxide_torch"
version = "0.1.0"
edition = "2021"
publish = false

[dependencies]
half = "*"
safetensors = "*"
serde = { version = "1", features = ["derive"] }
serde_json = "1"
tokenizers = { version = "*", default-features = false, features = ["fancy-regex"] }
libloading = "*"
