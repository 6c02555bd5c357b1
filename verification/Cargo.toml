[package]
name = "css_table"
version = "0.1.0"
edition = "2021"
publish = false

[dependencies]
syntect = "5"
serde = { version = "=1.0.229", features = ["derive"] }
serde_json = "=1.0.151"
