[package]
name = "transcribe_rs"
version = "0.3.0"
edition = "2021"
publish = false

[dependencies]
base64 = "0.22"
log = "0.4"
ndarray = "*"
ort = { version = "2.0.0-rc.10", default-features = false, features = ["std", "ndarray", "load-dynamic"] }
whisper-rs = "*"
