[package]
name = "serve_static"
version = "0.1.0"
edition = "2021"
publish = false

[dependencies]
infer = "*"
mime_guess = "2"
percent-encoding = "2"
thiserror = "2"
