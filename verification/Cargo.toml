[package]
name = "uv-detect"
version = "0.1.0"
edition = "2021"
publish = false

[dependencies]
regex-syntax = "0.8"
log = "0.4"
clap = { version = "4", features = ["derive"] }
simple_logger = "5"
walkdir = "2"
rustpython-parser = "0.3"
reqwest = { version = "0.12", default-features = false, features = ["blocking", "json", "rustls-tls"] }
serde_json = "1"
taplo = "0.13"
toml_edit = "0.22"

[dev-dependencies]
regex = "1"
tempfile = "3"
