[package]
name = "esp32"
version = "0.1.0"
edition = "2021"
publish = false

[dependencies]
heapless = "*"
serde_json = "*"
