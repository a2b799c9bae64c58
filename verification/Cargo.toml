[package]
name = "tsgrep"
version = "0.1.0"
edition = "2021"
publish = false

[dependencies]
tree-sitter = "*"
tree-sitter-go = "*"
tree-sitter-javascript = "*"
tree-sitter-php = "*"
tree-sitter-rust = "*"
tree-sitter-typescript = "*"
streaming-iterator = "*"
unescaper = "*"
bstr = "*"
clap = { version = "*", features = ["derive"] }
color-eyre = "*"
ignore = "*"
memmap2 = "*"
parking_lot = "*"
