[package]
name = "laya"
version = "0.1.0"
edition = "2021"
publish = false

[dependencies]
goish = "1.0.0-alpha.14"
libm = "0.2"
serde = "1"
serde_json = "1"
unicode-general-category = "*"
unicode-normalization = "0.1"
