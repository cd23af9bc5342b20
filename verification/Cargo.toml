[package]
name = "flatquery"
version = "0.1.0"
edition = "2021"
publish = false

[dependencies]
base64 = "*"
serde = "*"
serde_json = "*"
futures = "*"
