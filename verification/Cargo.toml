[package]
name = "gosu_lsp"
version = "0.1.0"
edition = "2021"
publish = false

[dependencies]
serde_json = "1"
zed_extension_api = "*"
