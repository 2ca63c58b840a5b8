[package]
name = "huub"
version = "0.1.0"
edition = "2021"
publish = false

[dependencies]
pindakaas = { version = "=0.5.1", features = ["external-propagation"] }
