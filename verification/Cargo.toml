[package]
name = "mallard"
version = "0.1.0"
edition = "2021"
publish = false

[dependencies]
blake3 = "=1.8.7"
tree-sitter = "=0.27.1"
tree-sitter-rust = "=0.24.2"
tree-sitter-python = "=0.25.0"
tree-sitter-typescript = "=0.23.2"
ast-grep-core = "=0.51.1"
ast-grep-language = "=0.51.1"
walkdir = "=2.5.0"
serde = { version = "=1.0.229", features = ["derive"] }
serde_json = "=1.0.154"
serde_yaml = "=0.9.34"
clap = { version = "=4.6.7", features = ["derive"] }
anyhow = "=1.0.104"
thiserror = "=2.0.21"

[dev-dependencies]
tempfile = "=3.27.0"
