[package]
name = "kmem"
version = "0.1.0"
edition = "2021"
publish = false

[dependencies]
bit_field = "*"
x86_64 = { version = "*", default-features = false, features = ["instructions"] }
bootloader_api = "*"
spinning_top = "*"
conquer-once = "*"
