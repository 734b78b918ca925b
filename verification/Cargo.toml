[package]
name = "partial_mixed_markdown"
version = "0.1.0"
edition = "2021"
publish = false

[dependencies]
anyhow = "1"
dialoguer = "*"
difference = "2"
kuchiki = "0.8"
regex = "1"
