[package]
name = "srt-protocol"
version = "0.1.0"
edition = "2021"
publish = false

[dependencies]
aes = "0.8"
aes-gcm = "0.10"
aes-kw = "0.2"
bytes = "1"
ctr = "0.9"
pbkdf2 = { version = "0.12", features = ["hmac"] }
sha1 = "0.10"
thiserror = "2"
