[package]
name = "nesfab_language_server"
version = "0.1.0"
edition = "2021"
publish = false

[dependencies]
anyhow = "*"
dashmap = "*"
rayon = "*"
tokio = { version = "*", features = ["macros", "rt-multi-thread", "io-std", "io-util"] }
tower-lsp = "*"
tree-sitter = "*"
walkdir = "*"
