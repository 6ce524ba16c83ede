[package]
name = "fast_ruby_lsp"
version = "0.1.0"
edition = "2021"
publish = false

[dependencies]
dashmap = "*"
tokio = { version = "*", features = ["full"] }
tower-lsp = "*"
walkdir = "*"
