[package]
name = "chrome_ocr"
version = "0.1.0"
edition = "2021"
publish = false

[dependencies]
anyhow = "1"
clap = { version = "4", features = ["derive"] }
dirs = "*"
env_logger = "*"
image = { version = "0.25", default-features = false, features = ["png", "jpeg", "bmp"] }
imageproc = { version = "0.25", default-features = false }
libloading = "0.8"
once_cell = "1"
retour = "0.3"
serde_json = "1"
tflitec = "*"
