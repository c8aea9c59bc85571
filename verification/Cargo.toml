[package]
name = "codex-file-search"
version = "0.1.0"
edition = "2021"
publish = false

[dependencies]
ignore = "0.4"
anyhow = "1"
