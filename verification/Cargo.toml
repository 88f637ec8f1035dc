[package]
name = "inflater"
version = "0.1.0"
edition = "2021"

[dev-dependencies]
miniz_oxide = "*"
