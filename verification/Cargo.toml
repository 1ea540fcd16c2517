[package]
name = "kernel"
version = "0.1.0"
edition = "2021"
publish = false

[dependencies]
x86_64 = { version = "0.15", default-features = false, features = ["instructions"] }
bootloader_api = "0.11"
spin = "0.9"
bootloader = "0.11"
