[package]
name = "qr_tiles"
version = "0.1.0"
edition = "2021"
publish = false

[dependencies]
clap = { version = "=4.6.7", features = ["derive"] }
image = { version = "=0.25.10", default-features = false, features = ["png"] }
qrcode-generator = { version = "=4.1.9", default-features = false }

[dev-dependencies]
rqrr = { version = "*", default-features = false }
