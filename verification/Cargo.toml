[package]
name = "wit-resolve"
version = "0.1.0"
edition = "2021"
publish = false

[dependencies]
anyhow = "1.0"
id-arena = "2.2"
indexmap = "1.9"
log = "0.4"
url = "=2.3.1"
