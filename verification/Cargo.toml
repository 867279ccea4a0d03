[package]
name = "rapidraw"
version = "0.1.0"
edition = "2021"
publish = false

[dependencies]
rawler = "=0.8.0"
image = { version = "=0.25.10", default-features = false }
anyhow = "=1.0.104"
