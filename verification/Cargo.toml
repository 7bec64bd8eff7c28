[package]
name = "tower_sanitize_path"
version = "0.1.0"
edition = "2021"
publish = false

[dependencies]
http = "*"
tower-layer = "*"
tower-service = "*"
