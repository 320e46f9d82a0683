[package]
name = "control_channel"
version = "0.1.0"
edition = "2021"
publish = false

[dependencies]
base64 = "*"
log = "*"
serde = "*"
serde_json = "*"
