[package]
name = "qrust_code"
version = "0.1.0"
edition = "2021"
publish = false

[dependencies]
image = { version = "0.24", default-features = false, features = ["png", "jpeg", "bmp", "gif"] }
qrcode = "0.13"
clap = { version = "4", features = ["derive"] }
rfd = "0.14"
