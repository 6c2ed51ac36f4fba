[package]
name = "booky"
version = "0.1.0"
edition = "2021"
publish = false

[dependencies]
crossterm = "*"
directories = "*"

[dev-dependencies]
serde_json = "*"
