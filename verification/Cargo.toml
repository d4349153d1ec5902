[package]
name = "stegstr"
version = "0.1.0"
edition = "2021"
publish = false

[dependencies]
aead = "0.5"
aes-gcm = "0.10"
base64 = "0.22"
dirs = "5"
hex = "0.4"
image = { version = "0.25", default-features = false, features = ["png", "jpeg", "gif", "bmp"] }
rand = "0.8"
secp256k1 = { version = "0.29", features = ["rand"] }
serde = { version = "1", features = ["derive"] }
serde_json = "1"
sha2 = "0.10"
