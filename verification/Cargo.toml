[package]
name = "virtual_memory"
version = "0.1.0"
edition = "2021"
publish = false

[dependencies]
x86_64 = { version = "0.14", default-features = false, features = ["instructions"] }
spin = "0.9"
log = "0.4"
