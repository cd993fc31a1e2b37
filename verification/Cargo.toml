[package]
name = "pdf_core"
version = "0.1.0"
edition = "2021"
publish = false

[dependencies]
bytes = "1"
flate2 = "1"
weezl = "0.1"
