[package]
name = "codemap"
version = "0.1.0"
edition = "2021"
publish = false

[dependencies]
clap = { version = "4", features = ["derive"] }
glob = "0.3"
tree-sitter = "*"
tree-sitter-go = "*"
tree-sitter-javascript = "*"
tree-sitter-python = "*"
tree-sitter-rust = "*"
