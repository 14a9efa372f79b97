[package]
name = "sui_core"
version = "0.1.0"
edition = "2021"
publish = false

[dependencies]
anyhow = "1"
bcs = "0.1"
colored = "*"
dirs = "*"
hex = "0.4"
serde_json = "1"
