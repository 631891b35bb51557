[package]
name = "typst_symbol"
version = "0.1.0"
edition = "2021"
publish = false

[dependencies]
codex = "*"
unicode-ident = "*"
ecow = "*"
serde = "*"
