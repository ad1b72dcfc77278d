[package]
name = "ocr_layout"
version = "0.1.0"
edition = "2021"
publish = false

[dependencies]
base64 = "*"
image = "*"
imageproc = "*"
leptess = "*"
serde = { version = "*", features = ["derive"] }
tokio = { version = "*", features = ["rt"] }
uuid = { version = "*", features = ["v4"] }
