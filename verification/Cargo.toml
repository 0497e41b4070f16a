[package]
name = "opv"
version = "0.1.0"
edition = "2021"
publish = false

[dependencies]
bincode = "=0.9.2"
stun = "=0.17.2"
clap = "=2.34.0"
image = { version = "*", default-features = false }
camera_capture = "*"
