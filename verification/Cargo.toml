[package]
name = "iga_core"
version = "0.1.0"
edition = "2021"
publish = false

[dependencies]
anyhow = "1"
calamine = "*"
chrono = "0.4"
csv = "1"
rust_xlsxwriter = "*"
serde = "1"
serde_json = "1"
