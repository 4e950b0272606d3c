[package]
name = "marginalia"
version = "0.1.0"
edition = "2021"
publish = false

[dependencies]
glob = "0.3"
regex = "1"
regex-syntax = "0.8"
serde = { version = "1", features = ["derive"] }
serde_json = "1"
clap = { version = "4", features = ["derive"] }
git2 = "0.19"
tree-sitter = "0.24"
tree-sitter-rust = "0.23"
tree-sitter-python = "0.23"
tree-sitter-go = "0.23"
tree-sitter-javascript = "0.23"
tree-sitter-typescript = "0.23"
tree-sitter-c = "0.23"
tree-sitter-haskell = "0.23"
tree-sitter-nix = "*"

[dev-dependencies]
tempfile = "3"
