[package]
name = "axum_accept"
version = "0.1.0"
edition = "2021"
publish = false

[dependencies]
mediatype = "*"
axum = "*"
