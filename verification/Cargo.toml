[package]
name = "atelier"
version = "0.1.0"
edition = "2021"
publish = false

[dependencies]
crop = "*"
tempfile = "*"
toml = "*"
serde = { version = "*", features = ["derive"] }
directories = "*"
tree-sitter = "*"
tree-sitter-rust = "*"
tree-sitter-toml-ng = "*"
tree-sitter-highlight = "*"
