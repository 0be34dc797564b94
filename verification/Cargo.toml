[package]
name = "etail_image_processor"
version = "0.1.0"
edition = "2021"
publish = false

[dependencies]
anyhow = "=1.0.104"
chrono = { version = "=0.4.45", default-features = false, features = ["clock", "std"] }
csv = "=1.4.0"
iced = { version = "=0.12.1", default-features = false }
rfd = { version = "=0.14.1", default-features = false }
