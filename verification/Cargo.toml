[package]
name = "zg"
version = "0.1.0"
edition = "2021"
publish = false

[dependencies]
regex-syntax = "=0.8.11"
base64 = "=0.23.1"
tree-sitter = "=0.27.1"
tree-sitter-rust = "=0.24.2"
tree-sitter-python = "=0.25.0"
tree-sitter-javascript = "=0.25.0"
tree-sitter-typescript = "=0.23.2"
serde = { version = "=1.0.229", features = ["derive"] }
serde_json = "=1.0.154"
clap = { version = "=4.6.7", features = ["derive"] }
rusqlite = { version = "=0.41.1", features = ["bundled"] }
sqlite-vec = "=0.1.9"
ignore = "=0.4.34"
fastembed = { version = "=7.5.0", default-features = false, features = ["onnx", "hf-hub"] }
