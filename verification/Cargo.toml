[package]
name = "llm_tidy_lint"
version = "0.1.0"
edition = "2021"
publish = false

[dependencies]
tree-sitter = "=0.27.1"
tree-sitter-rust = "=0.24.2"
tree-sitter-c-sharp = "=0.23.5"
ahash = "=0.8.12"
anyhow = "=1.0.104"
indoc = "=2.0.8"
regex = "=1.13.1"
