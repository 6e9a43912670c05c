[package]
name = "xtch-core"
version = "0.1.0"
edition = "2021"
publish = false

[dependencies]
image = { version = "0.25", default-features = false, features = ["png", "jpeg", "webp", "bmp", "gif"] }
imageproc = { version = "0.25", default-features = false }
zip = { version = "2", default-features = false, features = ["deflate"] }
base64 = "0.22"
serde = { version = "1", features = ["derive"] }
