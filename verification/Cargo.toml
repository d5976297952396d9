[package]
name = "whwjm-ocr"
version = "0.1.0"
edition = "2021"
publish = false

[dependencies]
anyhow = "1"
image = "0.25"
ocr-rs = "*"
ureq = "3"
